pub mod search;
pub mod world_graph;

use vstd::prelude::*;
use vstd::std_specs::cmp::PartialOrdSpec;

use crate::chunk::slab::{AreaInfo, SliceNavArea};
use crate::chunk::slice_navmesh::{SliceAreaIndex, SliceAreaIndexAllocator};
use crate::chunk::vertical_space::ABSOLUTE_MAX_FREE_VERTICAL_SPACE;
use crate::coordinate::world::ChunkPosition;
use crate::slab::SlabIndex;
use petgraph::graphmap::GraphMap;
use petgraph::Directed;
use std::collections::hash_map::RandomState;
use std::hash::BuildHasher;

verus! {

/// The number of slices in a slab, as a slice index.
pub const SLAB_SLICES_U8: u8 = 32;

/// A direction from a chunk to one of the eight chunks around it.
#[derive(Debug, Copy, Clone, PartialEq, Eq, Hash, Structural)]
pub enum NeighbourOffset {
    South,
    SouthEast,
    East,
    NorthEast,
    North,
    NorthWest,
    West,
    SouthWest,
}

impl NeighbourOffset {
    /// The direction is along an axis, not a diagonal.
    pub open spec fn aligned(self) -> bool {
        self is South || self is East || self is North || self is West
    }

    /// The chunk offset of the direction: east is +x, north is +y.
    pub open spec fn offset_spec(self) -> (int, int) {
        match self {
            NeighbourOffset::South => (0, -1),
            NeighbourOffset::SouthEast => (1, -1),
            NeighbourOffset::East => (1, 0),
            NeighbourOffset::NorthEast => (1, 1),
            NeighbourOffset::North => (0, 1),
            NeighbourOffset::NorthWest => (-1, 1),
            NeighbourOffset::West => (-1, 0),
            NeighbourOffset::SouthWest => (-1, -1),
        }
    }

    pub fn is_aligned(&self) -> (r: bool)
        ensures
            r == self.aligned(),
    {
        match self {
            NeighbourOffset::South | NeighbourOffset::East | NeighbourOffset::North
            | NeighbourOffset::West => true,
            _ => false,
        }
    }

    pub fn offset(&self) -> (r: (i32, i32))
        ensures
            r.0 == self.offset_spec().0,
            r.1 == self.offset_spec().1,
    {
        match self {
            NeighbourOffset::South => (0, -1),
            NeighbourOffset::SouthEast => (1, -1),
            NeighbourOffset::East => (1, 0),
            NeighbourOffset::NorthEast => (1, 1),
            NeighbourOffset::North => (0, 1),
            NeighbourOffset::NorthWest => (-1, 1),
            NeighbourOffset::West => (-1, 0),
            NeighbourOffset::SouthWest => (-1, -1),
        }
    }

    /// The direction pointing the other way.
    pub open spec fn opposite_spec(self) -> NeighbourOffset {
        match self {
            NeighbourOffset::South => NeighbourOffset::North,
            NeighbourOffset::SouthEast => NeighbourOffset::NorthWest,
            NeighbourOffset::East => NeighbourOffset::West,
            NeighbourOffset::NorthEast => NeighbourOffset::SouthWest,
            NeighbourOffset::North => NeighbourOffset::South,
            NeighbourOffset::NorthWest => NeighbourOffset::SouthEast,
            NeighbourOffset::West => NeighbourOffset::East,
            NeighbourOffset::SouthWest => NeighbourOffset::NorthEast,
        }
    }

    /// The direction pointing the other way.
    pub fn opposite(&self) -> (r: NeighbourOffset)
        ensures
            r == self.opposite_spec(),
            r.offset_spec().0 == -self.offset_spec().0,
            r.offset_spec().1 == -self.offset_spec().1,
    {
        match self {
            NeighbourOffset::South => NeighbourOffset::North,
            NeighbourOffset::SouthEast => NeighbourOffset::NorthWest,
            NeighbourOffset::East => NeighbourOffset::West,
            NeighbourOffset::NorthEast => NeighbourOffset::SouthWest,
            NeighbourOffset::North => NeighbourOffset::South,
            NeighbourOffset::NorthWest => NeighbourOffset::SouthEast,
            NeighbourOffset::West => NeighbourOffset::East,
            NeighbourOffset::SouthWest => NeighbourOffset::NorthEast,
        }
    }
}

/// The direction with the given position in the circle South, SouthEast, East, ..., SouthWest.
pub open spec fn neighbour_of_ordinal(i: int) -> NeighbourOffset {
    if i == 0 {
        NeighbourOffset::South
    } else if i == 1 {
        NeighbourOffset::SouthEast
    } else if i == 2 {
        NeighbourOffset::East
    } else if i == 3 {
        NeighbourOffset::NorthEast
    } else if i == 4 {
        NeighbourOffset::North
    } else if i == 5 {
        NeighbourOffset::NorthWest
    } else if i == 6 {
        NeighbourOffset::West
    } else {
        NeighbourOffset::SouthWest
    }
}

impl NeighbourOffset {
    /// The position of the direction in the circle, from South round by East.
    pub open spec fn ordinal_spec(self) -> int {
        match self {
            NeighbourOffset::South => 0,
            NeighbourOffset::SouthEast => 1,
            NeighbourOffset::East => 2,
            NeighbourOffset::NorthEast => 3,
            NeighbourOffset::North => 4,
            NeighbourOffset::NorthWest => 5,
            NeighbourOffset::West => 6,
            NeighbourOffset::SouthWest => 7,
        }
    }

    /// The position of the direction in the circle, from South round by East.
    pub fn ordinal(self) -> (r: usize)
        ensures
            r == self.ordinal_spec(),
    {
        match self {
            NeighbourOffset::South => 0,
            NeighbourOffset::SouthEast => 1,
            NeighbourOffset::East => 2,
            NeighbourOffset::NorthEast => 3,
            NeighbourOffset::North => 4,
            NeighbourOffset::NorthWest => 5,
            NeighbourOffset::West => 6,
            NeighbourOffset::SouthWest => 7,
        }
    }

    /// The next direction round the circle.
    pub fn next(self) -> (r: NeighbourOffset)
        ensures
            r == neighbour_of_ordinal((self.ordinal_spec() + 1) % 8),
    {
        match self {
            NeighbourOffset::South => NeighbourOffset::SouthEast,
            NeighbourOffset::SouthEast => NeighbourOffset::East,
            NeighbourOffset::East => NeighbourOffset::NorthEast,
            NeighbourOffset::NorthEast => NeighbourOffset::North,
            NeighbourOffset::North => NeighbourOffset::NorthWest,
            NeighbourOffset::NorthWest => NeighbourOffset::West,
            NeighbourOffset::West => NeighbourOffset::SouthWest,
            NeighbourOffset::SouthWest => NeighbourOffset::South,
        }
    }

    /// The previous direction round the circle.
    pub fn prev(self) -> (r: NeighbourOffset)
        ensures
            r == neighbour_of_ordinal((self.ordinal_spec() + 7) % 8),
    {
        match self {
            NeighbourOffset::South => NeighbourOffset::SouthWest,
            NeighbourOffset::SouthEast => NeighbourOffset::South,
            NeighbourOffset::East => NeighbourOffset::SouthEast,
            NeighbourOffset::NorthEast => NeighbourOffset::East,
            NeighbourOffset::North => NeighbourOffset::NorthEast,
            NeighbourOffset::NorthWest => NeighbourOffset::North,
            NeighbourOffset::West => NeighbourOffset::NorthWest,
            NeighbourOffset::SouthWest => NeighbourOffset::West,
        }
    }
}

/// Each direction is told apart by its offset.
pub proof fn lemma_offset_injective(a: NeighbourOffset, b: NeighbourOffset)
    requires
        a.offset_spec() == b.offset_spec(),
    ensures
        a == b,
{
}

/// Area within a slab
#[derive(Debug, Copy, Clone, Hash, Eq, PartialEq, Structural)]
pub struct SlabArea {
    pub slice_idx: u8,
    pub slice_area: SliceAreaIndex,
}

/// Area within a chunk
#[derive(Debug, Copy, Clone, Hash, Eq, PartialEq, Structural)]
pub struct ChunkArea {
    pub slab_idx: SlabIndex,
    pub slab_area: SlabArea,
}

/// Area within the world
#[derive(Debug, Copy, Clone, Hash, Eq, PartialEq, Structural)]
pub struct WorldArea {
    pub chunk_idx: ChunkPosition,
    pub chunk_area: ChunkArea,
}

impl SlabArea {
    pub fn to_chunk_area(self, slab: SlabIndex) -> (r: ChunkArea)
        ensures
            r == (ChunkArea { slab_idx: slab, slab_area: self }),
    {
        ChunkArea { slab_idx: slab, slab_area: self }
    }
}

impl ChunkArea {
    pub fn to_world_area(self, chunk: ChunkPosition) -> (r: WorldArea)
        ensures
            r == (WorldArea { chunk_idx: chunk, chunk_area: self }),
    {
        WorldArea { chunk_idx: chunk, chunk_area: self }
    }

    /// The slice of the area in the whole chunk.
    pub fn slice(self) -> (r: i32)
        requires
            i32::MIN <= self.slab_idx * 32,
            self.slab_idx * 32 + self.slab_area.slice_idx <= i32::MAX,
        ensures
            r == self.slab_idx * 32 + self.slab_area.slice_idx,
    {
        self.slab_idx * 32 + self.slab_area.slice_idx as i32
    }
}

/// An edge between two areas of a slab.
#[derive(Debug, Copy, Clone, Eq, PartialEq, Hash, Structural)]
pub struct SlabNavEdge {
    /// Max height in blocks for someone to pass this edge; never zero
    pub clearance: u8,
    /// 0=flat, >0 step up/jump (or step down/drop if going other way)
    pub height_diff: u8,
}

impl SlabNavEdge {
    /// Someone can pass the edge.
    pub open spec fn wf(self) -> bool {
        self.clearance > 0
    }

    /// An edge with the given clearance and height difference, if someone can pass it.
    pub fn new(clearance: u8, height_diff: u8) -> (r: Option<SlabNavEdge>)
        ensures
            r is None <==> clearance == 0,
            r matches Some(e) ==> e == (SlabNavEdge { clearance, height_diff }),
    {
        if clearance == 0 {
            None
        } else {
            Some(SlabNavEdge { clearance, height_diff })
        }
    }

    pub fn clearance(&self) -> (r: u8)
        ensures
            r == self.clearance,
    {
        self.clearance
    }
}

/// An edge of the world graph as seen from one of its nodes.
#[derive(Copy, Clone)]
pub struct DirectionalSlabNavEdge {
    edge: SlabNavEdge,
    edge_id: u32,
    is_outgoing: bool,
    other_node: u32,
}

/// The height an edge climbs going one way: its height difference when it is taken from its
/// source, the negated difference the other way; the difference is read as a signed byte.
pub open spec fn directed_step(height_diff: u8, outgoing: bool) -> int {
    if outgoing {
        height_diff as i8 as int
    } else {
        -(height_diff as i8 as int)
    }
}

impl DirectionalSlabNavEdge {
    /// The edge with the given index, taken from its source (`is_outgoing`) or from its
    /// target, towards `other_node`.
    pub fn new(edge: SlabNavEdge, edge_id: u32, is_outgoing: bool, other_node: u32) -> (r: Self)
        ensures
            r.edge_view() == edge,
            r.edge_id_view() == edge_id,
            r.is_outgoing_view() == is_outgoing,
            r.other_node_view() == other_node,
    {
        DirectionalSlabNavEdge { edge, edge_id, is_outgoing, other_node }
    }

    pub closed spec fn edge_view(&self) -> SlabNavEdge {
        self.edge
    }

    pub closed spec fn edge_id_view(&self) -> u32 {
        self.edge_id
    }

    pub closed spec fn is_outgoing_view(&self) -> bool {
        self.is_outgoing
    }

    pub closed spec fn other_node_view(&self) -> u32 {
        self.other_node
    }

    pub fn clearance(&self) -> (r: u8)
        ensures
            r == self.edge_view().clearance,
    {
        self.edge.clearance
    }

    /// The height climbed crossing the edge this way (see [directed_step]).
    pub fn step(&self) -> (r: i8)
        requires
            self.is_outgoing_view() || self.edge_view().height_diff as i8 != i8::MIN,
        ensures
            r as int == directed_step(self.edge_view().height_diff, self.is_outgoing_view()),
    {
        let h = self.edge.height_diff as i8;
        if self.is_outgoing {
            h
        } else {
            -h
        }
    }

    pub fn other_node(&self) -> (r: u32)
        ensures
            r == self.other_node_view(),
    {
        self.other_node
    }
}

/// An area's inclusive corners in its slice: (from x, from y), (to x, to y).
pub type AreaRange = ((u8, u8), (u8, u8));

/// A block lies in the range.
pub open spec fn range_contains(r: AreaRange, x: int, y: int) -> bool {
    r.0.0 <= x <= r.1.0 && r.0.1 <= y <= r.1.1
}

/// The range holds at least one block.
pub open spec fn range_wf(r: AreaRange) -> bool {
    r.0.0 <= r.1.0 && r.0.1 <= r.1.1
}

/// The ranges intersect once the first is stretched by one block along x (left and right), or
/// once it is stretched by one block along y.
pub open spec fn areas_touch_spec(a: AreaRange, b: AreaRange) -> bool {
    ||| (a.0.0 - 1 <= b.1.0 && a.1.0 + 1 >= b.0.0 && a.0.1 <= b.1.1 && a.1.1 >= b.0.1)
    ||| (a.0.0 <= b.1.0 && a.1.0 >= b.0.0 && a.0.1 - 1 <= b.1.1 && a.1.1 + 1 >= b.0.1)
}

/// True for adjacent areas that are not diagonals
pub fn areas_touch(a: AreaRange, b: AreaRange) -> (r: bool)
    requires
        a.1.0 < u8::MAX,
        a.1.1 < u8::MAX,
    ensures
        r == areas_touch_spec(a, b),
{
    let ((ax1, ay1), (ax2, ay2)) = a;
    let ((bx1, by1), (bx2, by2)) = b;
    let intersects_x = ax1.saturating_sub(1) <= bx2 && ax2 + 1 >= bx1 && ay1 <= by2 && ay2 >= by1;
    let intersects_y = ax1 <= bx2 && ax2 >= bx1 && ay1.saturating_sub(1) <= by2 && ay2 + 1 >= by1;
    // expand a outwards in a cross and check for intersection
    intersects_x || intersects_y
}

/// Two areas touch exactly when a block of one is next to, or the same as, a block of the
/// other, along x or along y.
pub proof fn lemma_areas_touch_blocks(a: AreaRange, b: AreaRange)
    requires
        range_wf(a),
        range_wf(b),
    ensures
        areas_touch_spec(a, b) <==> exists|ax: int, ay: int, bx: int, by: int|
            #![trigger range_contains(a, ax, ay), range_contains(b, bx, by)]
            range_contains(a, ax, ay) && range_contains(b, bx, by) && (if ax >= bx {
                ax - bx
            } else {
                bx - ax
            }) + (if ay >= by {
                ay - by
            } else {
                by - ay
            }) <= 1,
{
    if areas_touch_spec(a, b) {
        // pick the blocks of each range nearest the other
        let clamp = |v: int, lo: int, hi: int| if v < lo { lo } else if v > hi { hi } else { v };
        if a.0.0 - 1 <= b.1.0 && a.1.0 + 1 >= b.0.0 && a.0.1 <= b.1.1 && a.1.1 >= b.0.1 {
            let y = clamp(b.0.1 as int, a.0.1 as int, a.1.1 as int);
            let y2 = if y > b.1.1 { b.1.1 as int } else if y < b.0.1 { b.0.1 as int } else { y };
            let ax = clamp(b.0.0 as int, a.0.0 as int, a.1.0 as int);
            let bx = clamp(ax, b.0.0 as int, b.1.0 as int);
            assert(range_contains(a, ax, y2) && range_contains(b, bx, y2));
        } else {
            let x = clamp(b.0.0 as int, a.0.0 as int, a.1.0 as int);
            let x2 = if x > b.1.0 { b.1.0 as int } else if x < b.0.0 { b.0.0 as int } else { x };
            let ay = clamp(b.0.1 as int, a.0.1 as int, a.1.1 as int);
            let by = clamp(ay, b.0.1 as int, b.1.1 as int);
            assert(range_contains(a, x2, ay) && range_contains(b, x2, by));
        }
    }
}

/// Touching is symmetric.
pub proof fn lemma_areas_touch_symmetric(a: AreaRange, b: AreaRange)
    ensures
        areas_touch_spec(a, b) == areas_touch_spec(b, a),
{
}

/// Two areas on either side of a chunk border in the given direction touch: they overlap
/// along the border.
pub open spec fn border_areas_touch_spec(a: AreaRange, b: AreaRange, dir: NeighbourOffset) -> bool {
    match dir {
        NeighbourOffset::East | NeighbourOffset::West => a.0.1 <= b.1.1 && a.1.1 >= b.0.1,
        _ => a.0.0 <= b.1.0 && a.1.0 >= b.0.0,
    }
}

pub fn border_areas_touch(a: AreaRange, b: AreaRange, dir: NeighbourOffset) -> (r: bool)
    requires
        dir.aligned(),
    ensures
        r == border_areas_touch_spec(a, b, dir),
{
    let ((ax1, ay1), (ax2, ay2)) = a;
    let ((bx1, by1), (bx2, by2)) = b;
    match dir {
        NeighbourOffset::East | NeighbourOffset::West => {
            // check y axis only
            ay1 <= by2 && ay2 >= by1
        },
        _ => {
            // check x axis only
            ax1 <= bx2 && ax2 >= bx1
        },
    }
}

/// The range reaches the border of its chunk on the side of the given direction; never for a
/// diagonal.
pub open spec fn is_border_spec(direction: NeighbourOffset, range: AreaRange) -> bool {
    match direction {
        NeighbourOffset::South => range.0.1 == 0,
        NeighbourOffset::East => range.1.0 == 15,
        NeighbourOffset::North => range.1.1 == 15,
        NeighbourOffset::West => range.0.0 == 0,
        _ => false,
    }
}

pub fn is_border(direction: NeighbourOffset, range: AreaRange) -> (r: bool)
    ensures
        r == is_border_spec(direction, range),
{
    let (from, to) = range;
    match direction {
        NeighbourOffset::South => from.1 == 0,
        NeighbourOffset::East => to.0 == 15,
        NeighbourOffset::North => to.1 == 15,
        NeighbourOffset::West => from.0 == 0,
        // cannot link with diagonals
        _ => false,
    }
}

pub fn as_border_area(area: ChunkArea, info: &AreaInfo, direction: NeighbourOffset) -> (r: Option<
    (SliceNavArea, SliceAreaIndex),
>)
    ensures
        r is Some <==> is_border_spec(direction, info.range),
        r matches Some(p) ==> p.0 == (SliceNavArea {
            slice: area.slab_area.slice_idx,
            from: info.range.0,
            to: info.range.1,
            height: info.height,
        }) && p.1 == area.slab_area.slice_area,
{
    if is_border(direction, info.range) {
        Some(
            (
                SliceNavArea {
                    slice: area.slab_area.slice_idx,
                    from: info.range.0,
                    to: info.range.1,
                    height: info.height,
                },
                area.slab_area.slice_area,
            ),
        )
    } else {
        None
    }
}

/// The area protrudes into the slab above.
pub open spec fn is_top_area_spec(a: SliceNavArea) -> bool {
    a.slice + a.height > 32
}

pub fn is_top_area(a: &SliceNavArea) -> (r: bool)
    ensures
        r == is_top_area_spec(*a),
{
    (a.slice as u16) + (a.height as u16) > SLAB_SLICES_U8 as u16
}

pub fn is_bottom_area(a: &SliceNavArea) -> (r: bool)
    ensures
        r == (a.slice == 0),
{
    a.slice == 0
}

/// The lowest slice an area can start in and still protrude into the slab above.
pub const MIN_TOP_SLICE: u8 = 23;

/// Each area's slice is no lower than the one before.
pub open spec fn slices_sorted(areas: Seq<SliceNavArea>) -> bool {
    forall|a: int, b: int| 0 <= a < b < areas.len() ==> #[trigger] areas[a].slice <= #[trigger] areas[b].slice
}

/// The index of area `p` among the areas of its slice: how many areas of the same slice come
/// right before it.
pub open spec fn area_index(areas: Seq<SliceNavArea>, p: int) -> nat
    decreases p,
{
    if p <= 0 || areas[p - 1].slice != areas[p].slice {
        0
    } else {
        area_index(areas, p - 1) + 1
    }
}

/// No slice has more areas than an area index tells apart.
pub open spec fn area_indices_fit(areas: Seq<SliceNavArea>) -> bool {
    forall|p: int| 0 <= p < areas.len() ==> #[trigger] area_index(areas, p) < 256
}

/// Area `p` with its index among the areas of its slice.
pub open spec fn indexed(areas: Seq<SliceNavArea>, p: int) -> (SliceNavArea, SliceAreaIndex) {
    (areas[p], SliceAreaIndex(area_index(areas, p) as u8))
}

/// The areas among the first `n` that meet `pred`, in order, each with its index among the
/// areas of its slice.
pub open spec fn indexed_filter(
    areas: Seq<SliceNavArea>,
    n: int,
    pred: spec_fn(SliceNavArea) -> bool,
) -> Seq<(SliceNavArea, SliceAreaIndex)>
    decreases n,
{
    if n <= 0 {
        Seq::empty()
    } else if pred(areas[n - 1]) {
        indexed_filter(areas, n - 1, pred).push(indexed(areas, n - 1))
    } else {
        indexed_filter(areas, n - 1, pred)
    }
}

/// The border areas of a slab in the given direction, each with its index in its slice.
/// Input must be in order and unfiltered
pub fn filter_border_areas(areas: &[SliceNavArea], direction: NeighbourOffset) -> (r: Vec<
    (SliceNavArea, SliceAreaIndex),
>)
    requires
        slices_sorted(areas@),
        area_indices_fit(areas@),
    ensures
        r@ == indexed_filter(
            areas@,
            areas@.len() as int,
            |a: SliceNavArea| is_border_spec(direction, (a.from, a.to)),
        ),
{
    let r = filter_indexed_from(areas, 0, AreaFilter::Border(direction));
    proof {
        assert(r@ =~= indexed_filter(
            areas@,
            areas@.len() as int,
            |a: SliceNavArea| is_border_spec(direction, (a.from, a.to)),
        )) by {
            assert(filter_pred(AreaFilter::Border(direction)) =~= |a: SliceNavArea| is_border_spec(direction, (a.from, a.to)));
        }
    }
    r
}

/// Filters areas that protrude into slab above.
/// Input must be in order and unfiltered
pub fn filter_top_areas(areas: &[SliceNavArea]) -> (r: Vec<(SliceNavArea, SliceAreaIndex)>)
    requires
        slices_sorted(areas@),
        area_indices_fit(areas@),
    ensures
        r@ == indexed_filter(
            areas@,
            areas@.len() as int,
            |a: SliceNavArea| a.slice >= MIN_TOP_SLICE && is_top_area_spec(a),
        ),
{
    let start = skip_low_slices(areas);
    let ghost pred = |a: SliceNavArea| a.slice >= MIN_TOP_SLICE && is_top_area_spec(a);
    proof {
        lemma_filter_skipped(areas@, start as int, pred);
        assert(filter_pred(AreaFilter::Top) =~= pred);
    }
    filter_indexed_from(areas, start, AreaFilter::Top)
}

/// Filters areas that reach the top of the slab.
/// Input must be in order and unfiltered
pub fn filter_bottom_areas(areas: &[SliceNavArea]) -> (r: Vec<(SliceNavArea, SliceAreaIndex)>)
    requires
        slices_sorted(areas@),
        area_indices_fit(areas@),
    ensures
        r@ == indexed_filter(
            areas@,
            areas@.len() as int,
            |a: SliceNavArea| a.slice >= MIN_TOP_SLICE && a.slice + a.height >= 32,
        ),
{
    let start = skip_low_slices(areas);
    let ghost pred = |a: SliceNavArea| a.slice >= MIN_TOP_SLICE && a.slice + a.height >= 32;
    proof {
        lemma_filter_skipped(areas@, start as int, pred);
        assert(filter_pred(AreaFilter::Bottom) =~= pred);
    }
    filter_indexed_from(areas, start, AreaFilter::Bottom)
}

/// The index of the first area at or above the lowest slice that can reach the slab above.
fn skip_low_slices(areas: &[SliceNavArea]) -> (r: usize)
    requires
        slices_sorted(areas@),
    ensures
        r <= areas@.len(),
        forall|p: int| 0 <= p < r ==> #[trigger] areas@[p].slice < MIN_TOP_SLICE,
        forall|p: int| r <= p < areas@.len() ==> #[trigger] areas@[p].slice >= MIN_TOP_SLICE,
{
    let mut k: usize = 0;
    while k < areas.len() && areas[k].slice < MIN_TOP_SLICE
        invariant
            k <= areas@.len(),
            forall|p: int| 0 <= p < k ==> #[trigger] areas@[p].slice < MIN_TOP_SLICE,
        decreases areas@.len() - k,
    {
        k = k + 1;
    }
    proof {
        assert forall|p: int| k <= p < areas@.len() implies #[trigger] areas@[p].slice >= MIN_TOP_SLICE by {
            if p > k {
                assert(areas@[k as int].slice <= areas@[p].slice);
            }
        }
    }
    k
}

/// Skipping a prefix of areas that the predicate refuses leaves the filter unchanged.
proof fn lemma_filter_skipped(areas: Seq<SliceNavArea>, start: int, pred: spec_fn(SliceNavArea) -> bool)
    requires
        0 <= start <= areas.len(),
        forall|p: int| 0 <= p < start ==> !pred(#[trigger] areas[p]),
    ensures
        indexed_filter(areas, start, pred) == Seq::<(SliceNavArea, SliceAreaIndex)>::empty(),
    decreases start,
{
    if start > 0 {
        lemma_filter_skipped(areas, start - 1, pred);
        assert(!pred(areas[start - 1]));
    }
}

/// Which areas a filter keeps.
enum AreaFilter {
    /// Those on the border in the direction.
    Border(NeighbourOffset),
    /// Those from the lowest slice that can reach the slab above that protrude into it.
    Top,
    /// Those from the lowest slice that can reach the slab above that reach its top.
    Bottom,
}

/// The areas a filter keeps.
spec fn filter_pred(f: AreaFilter) -> spec_fn(SliceNavArea) -> bool {
    match f {
        AreaFilter::Border(d) => |a: SliceNavArea| is_border_spec(d, (a.from, a.to)),
        AreaFilter::Top => |a: SliceNavArea| a.slice >= MIN_TOP_SLICE && is_top_area_spec(a),
        AreaFilter::Bottom => |a: SliceNavArea| a.slice >= MIN_TOP_SLICE && a.slice + a.height >= 32,
    }
}

/// The filter keeps the area; the slice test of the top and bottom filters is left to the
/// caller, who skips the lower slices.
fn keeps(f: &AreaFilter, a: &SliceNavArea) -> (r: bool)
    requires
        !(f is Border) ==> a.slice >= MIN_TOP_SLICE,
    ensures
        r == filter_pred(*f)(*a),
{
    match f {
        AreaFilter::Border(d) => is_border(*d, (a.from, a.to)),
        AreaFilter::Top => is_top_area(a),
        AreaFilter::Bottom => (a.slice as u16) + (a.height as u16) >= SLAB_SLICES_U8 as u16,
    }
}

/// Allocates each area from `start` on its index in its slice, and keeps, in order, those that
/// the filter keeps.
fn filter_indexed_from(areas: &[SliceNavArea], start: usize, filter: AreaFilter) -> (r: Vec<
    (SliceNavArea, SliceAreaIndex),
>)
    requires
        slices_sorted(areas@),
        area_indices_fit(areas@),
        start <= areas@.len(),
        start > 0 ==> areas@[start - 1].slice != areas@[start as int].slice || start == areas@.len(),
        indexed_filter(areas@, start as int, filter_pred(filter)) == Seq::<(SliceNavArea, SliceAreaIndex)>::empty(),
        !(filter is Border) ==> forall|p: int| start <= p < areas@.len() ==> #[trigger] areas@[p].slice >= MIN_TOP_SLICE,
    ensures
        r@ == indexed_filter(areas@, areas@.len() as int, filter_pred(filter)),
{
    let ghost pred = filter_pred(filter);
    let mut alloc = SliceAreaIndexAllocator::default();
    let mut out: Vec<(SliceNavArea, SliceAreaIndex)> = Vec::new();
    let mut k: usize = start;
    while k < areas.len()
        invariant
            slices_sorted(areas@),
            area_indices_fit(areas@),
            start <= k <= areas@.len(),
            start > 0 ==> areas@[start - 1].slice != areas@[start as int].slice || start == areas@.len(),
            pred == filter_pred(filter),
            !(filter is Border) ==> forall|p: int| start <= p < areas@.len() ==> #[trigger] areas@[p].slice >= MIN_TOP_SLICE,
            k == start ==> alloc@ == (None::<u8>, 0u8),
            k > start ==> alloc@ == (Some(areas@[k - 1].slice), area_index(areas@, k - 1) as u8),
            out@ == indexed_filter(areas@, k as int, pred),
        decreases areas@.len() - k,
    {
        let a = areas[k];
        proof {
            if k > start && areas@[k - 1].slice == a.slice {
                assert(area_index(areas@, k as int) == area_index(areas@, k - 1) + 1);
                assert(area_index(areas@, k as int) < 256);
            }
            if k > start && areas@[k - 1].slice != a.slice {
                assert(areas@[k - 1].slice <= areas@[k as int].slice);
            }
        }
        let idx = alloc.allocate(a.slice);
        proof {
            assert(idx.0 == area_index(areas@, k as int));
        }
        if keeps(&filter, &a) {
            out.push((a, idx));
        }
        k = k + 1;
    }
    out
}

/// No two areas share a slice and an index in it.
pub fn no_dupes(input: &[(SliceNavArea, SliceAreaIndex)]) -> (r: bool)
    ensures
        r == forall|i: int, j: int|
            0 <= i < j < input@.len() ==> !(#[trigger] input@[i].0.slice == #[trigger] input@[j].0.slice
                && input@[i].1 == input@[j].1),
{
    let mut i: usize = 0;
    while i < input.len()
        invariant
            i <= input@.len(),
            forall|a: int, b: int|
                0 <= a < i && a < b < input@.len() ==> !(#[trigger] input@[a].0.slice
                    == #[trigger] input@[b].0.slice && input@[a].1 == input@[b].1),
        decreases input@.len() - i,
    {
        let mut j: usize = i + 1;
        while j < input.len()
            invariant
                i < input@.len(),
                i + 1 <= j <= input@.len(),
                forall|a: int, b: int|
                    0 <= a < i && a < b < input@.len() ==> !(#[trigger] input@[a].0.slice
                        == #[trigger] input@[b].0.slice && input@[a].1 == input@[b].1),
                forall|b: int|
                    i < b < j ==> !(input@[i as int].0.slice == #[trigger] input@[b].0.slice
                        && input@[i as int].1 == input@[b].1),
            decreases input@.len() - j,
        {
            if input[i].0.slice == input[j].0.slice && input[i].1 == input[j].1 {
                return false;
            }
            j = j + 1;
        }
        i = i + 1;
    }
    true
}

/// The keys of consecutive items never go down: each is at most the next.
pub fn is_sorted_by<T, P: PartialOrd>(items: &[T], key: impl Fn(&T) -> P) -> (r: bool)
    requires
        P::obeys_partial_cmp_spec(),
        forall|i: int| 0 <= i < items@.len() ==> key.requires((&items@[i],)),
        forall|t: &T, a: P, b: P| key.ensures((t,), a) && key.ensures((t,), b) ==> a == b,
    ensures
        r <==> forall|i: int, j: int, a: P, b: P|
            0 <= i && j == i + 1 && j < items@.len() && #[trigger] key.ensures((&items@[i],), a)
                && #[trigger] key.ensures((&items@[j],), b) ==> a.partial_cmp_spec(&b) matches Some(
                core::cmp::Ordering::Less
                | core::cmp::Ordering::Equal,
            ),
{
    if items.len() == 0 {
        return true;
    }
    let mut prev = key(&items[0]);
    let mut i: usize = 1;
    while i < items.len()
        invariant
            1 <= i <= items@.len(),
            P::obeys_partial_cmp_spec(),
            forall|c: int| 0 <= c < items@.len() ==> key.requires((&items@[c],)),
            forall|t: &T, a: P, b: P| key.ensures((t,), a) && key.ensures((t,), b) ==> a == b,
            key.ensures((&items@[i - 1],), prev),
            forall|c: int, d: int, a: P, b: P|
                0 <= c && d == c + 1 && d < i && #[trigger] key.ensures((&items@[c],), a)
                    && #[trigger] key.ensures((&items@[d],), b) ==> a.partial_cmp_spec(&b) matches Some(
                    core::cmp::Ordering::Less
                    | core::cmp::Ordering::Equal,
                ),
        decreases items@.len() - i,
    {
        let next = key(&items[i]);
        if !(prev <= next) {
            return false;
        }
        prev = next;
        i = i + 1;
    }
    true
}

#[verifier::external_type_specification]
#[verifier::external_body]
#[verifier::reject_recursive_types(N)]
#[verifier::reject_recursive_types(E)]
#[verifier::reject_recursive_types(Ty)]
#[verifier::reject_recursive_types(S)]
pub struct ExGraphMap<N, E, Ty, S>(GraphMap<N, E, Ty, S>) where S: BuildHasher;

#[verifier::external_type_specification]
#[verifier::external_body]
pub struct ExDirected(Directed);

/// An area of a slab as a graph node: its slice and its index in the slice.
pub type NodeKey = (u8, u8);

/// An edge of a slab's area graph: its source, its target and its (clearance, height
/// difference).
pub type EdgeEntry = (NodeKey, NodeKey, (u8, u8));

/// A slab's graph of areas as petgraph holds it.
pub type SlabNavGraphType = GraphMap<NodeKey, (u8, u8), Directed, RandomState>;

/// The nodes of the graph, in the order they were first added.
pub uninterp spec fn graph_nodes(g: SlabNavGraphType) -> Seq<NodeKey>;

/// The edges of the graph with their weights, in the order they were first added.
pub uninterp spec fn graph_edges(g: SlabNavGraphType) -> Seq<EdgeEntry>;

/// The nodes once `n` is added: unchanged if it is there already, else with `n` at the end.
pub open spec fn add_node_spec(nodes: Seq<NodeKey>, n: NodeKey) -> Seq<NodeKey> {
    if nodes.contains(n) {
        nodes
    } else {
        nodes.push(n)
    }
}

/// Some edge goes from `a` to `b`.
pub open spec fn has_edge_key(edges: Seq<EdgeEntry>, a: NodeKey, b: NodeKey) -> bool {
    exists|j: int| 0 <= j < edges.len() && #[trigger] edges[j].0 == a && edges[j].1 == b
}

/// `GraphMap::new`: a graph with no nodes and no edges.
#[verifier::external_body]
fn graph_new() -> (g: SlabNavGraphType)
    ensures
        graph_nodes(g) == Seq::<NodeKey>::empty(),
        graph_edges(g) == Seq::<EdgeEntry>::empty(),
{
    GraphMap::new()
}

/// `GraphMap::with_capacity`: a graph with no nodes and no edges; the capacities only reserve
/// room.
#[verifier::external_body]
fn graph_with_capacity(nodes: usize, edges: usize) -> (g: SlabNavGraphType)
    ensures
        graph_nodes(g) == Seq::<NodeKey>::empty(),
        graph_edges(g) == Seq::<EdgeEntry>::empty(),
{
    GraphMap::with_capacity(nodes, edges)
}

/// `GraphMap::add_node`: adds the node at the end of the nodes unless it is there already,
/// and hands it back; the edges stay.
#[verifier::external_body]
fn graph_add_node(g: &mut SlabNavGraphType, n: NodeKey) -> (r: NodeKey)
    ensures
        r == n,
        graph_nodes(*final(g)) == add_node_spec(graph_nodes(*old(g)), n),
        graph_edges(*final(g)) == graph_edges(*old(g)),
{
    g.add_node(n)
}

/// `GraphMap::add_edge`: a new edge goes at the end of the edges, its nodes added as
/// `add_node` adds them (source first), and `None` comes back; an edge already there from `a`
/// to `b` keeps its place and takes the new weight, the nodes stay, and the old weight comes
/// back.
#[verifier::external_body]
fn graph_add_edge(g: &mut SlabNavGraphType, a: NodeKey, b: NodeKey, weight: (u8, u8)) -> (r: Option<(u8, u8)>)
    ensures
        match r {
            None => !has_edge_key(graph_edges(*old(g)), a, b) && graph_edges(*final(g)) == graph_edges(
                *old(g),
            ).push((a, b, weight)) && graph_nodes(*final(g)) == add_node_spec(
                add_node_spec(graph_nodes(*old(g)), a),
                b,
            ),
            Some(w) => exists|j: int|
                0 <= j < graph_edges(*old(g)).len() && graph_edges(*old(g))[j] == (a, b, w)
                    && graph_edges(*final(g)) == graph_edges(*old(g)).update(j, (a, b, weight))
                    && graph_nodes(*final(g)) == graph_nodes(*old(g)),
        },
{
    g.add_edge(a, b, weight)
}

/// `GraphMap::contains_edge`: some edge goes from `a` to `b`.
#[verifier::external_body]
fn graph_contains_edge(g: &SlabNavGraphType, a: NodeKey, b: NodeKey) -> (r: bool)
    ensures
        r == has_edge_key(graph_edges(*g), a, b),
{
    g.contains_edge(a, b)
}

/// `GraphMap::nodes`: the nodes, in the order they were first added.
#[verifier::external_body]
fn graph_nodes_vec(g: &SlabNavGraphType) -> (r: Vec<NodeKey>)
    ensures
        r@ == graph_nodes(*g),
{
    g.nodes().collect()
}

/// `GraphMap::all_edges`: the edges with their weights, in the order they were first added.
#[verifier::external_body]
fn graph_edges_vec(g: &SlabNavGraphType) -> (r: Vec<EdgeEntry>)
    ensures
        r@ == graph_edges(*g),
{
    g.all_edges().map(|(a, b, w)| (a, b, *w)).collect()
}

/// The graph node of area `p`: its slice and its index in the slice.
pub open spec fn node_of(areas: Seq<SliceNavArea>, p: int) -> NodeKey {
    (areas[p].slice, area_index(areas, p) as u8)
}

/// The range of area `p`.
pub open spec fn range_of(areas: Seq<SliceNavArea>, p: int) -> AreaRange {
    (areas[p].from, areas[p].to)
}

/// The free space of area `p` reaches slice `s`: it starts at or below it and ends above it.
pub open spec fn alive_at(areas: Seq<SliceNavArea>, p: int, s: int) -> bool {
    areas[p].slice <= s < areas[p].slice + areas[p].height
}

/// Areas `p` and `q` are linked: `p` comes first, its free space reaches the slice of `q`,
/// and their ranges touch.
pub open spec fn linked(areas: Seq<SliceNavArea>, p: int, q: int) -> bool {
    &&& 0 <= p < q < areas.len()
    &&& alive_at(areas, p, areas[q].slice as int)
    &&& areas_touch_spec(range_of(areas, p), range_of(areas, q))
}

/// The edge between linked areas `p` and `q`: from `p` up to `q`, as high as the lower of the
/// two spaces over the slice of `q`, climbing from the slice of `p` to that of `q`.
pub open spec fn edge_of(areas: Seq<SliceNavArea>, p: int, q: int) -> EdgeEntry {
    let s = areas[q].slice as int;
    let left_p = areas[p].slice + areas[p].height - s;
    let left_q = areas[q].height as int;
    (
        node_of(areas, p),
        node_of(areas, q),
        ((if left_p < left_q {
            left_p
        } else {
            left_q
        }) as u8, (s - areas[p].slice) as u8),
    )
}

/// Areas fit for a slab's graph: in slice order, each slice with no more areas than an index
/// tells apart, each with free space, each range's far corner below the coordinate limit.
pub open spec fn graph_input_ok(areas: Seq<SliceNavArea>) -> bool {
    &&& slices_sorted(areas)
    &&& area_indices_fit(areas)
    &&& forall|p: int| 0 <= p < areas.len() ==> #[trigger] areas[p].height > 0
    &&& forall|p: int| 0 <= p < areas.len() ==> #[trigger] areas[p].to.0 < u8::MAX && areas[p].to.1 < u8::MAX
}

/// Within a run of areas of one slice the index in the slice counts up one by one.
pub proof fn lemma_area_index_run(areas: Seq<SliceNavArea>, p: int, q: int)
    requires
        slices_sorted(areas),
        0 <= p <= q < areas.len(),
        areas[p].slice == areas[q].slice,
    ensures
        area_index(areas, q) == area_index(areas, p) + (q - p),
    decreases q - p,
{
    if q > p {
        assert(areas[p].slice <= areas[q - 1].slice);
        assert(areas[q - 1].slice <= areas[q].slice);
        lemma_area_index_run(areas, p, q - 1);
    }
}

/// Different areas are different graph nodes.
pub proof fn lemma_node_of_injective(areas: Seq<SliceNavArea>, p: int, q: int)
    requires
        slices_sorted(areas),
        area_indices_fit(areas),
        0 <= p < areas.len(),
        0 <= q < areas.len(),
        node_of(areas, p) == node_of(areas, q),
    ensures
        p == q,
{
    assert(area_index(areas, p) < 256);
    assert(area_index(areas, q) < 256);
    if p < q {
        lemma_area_index_run(areas, p, q);
    } else if q < p {
        lemma_area_index_run(areas, q, p);
    }
}

/// An area whose slice differs from the one before it starts its slice's run of areas.
proof fn lemma_area_index_start(areas: Seq<SliceNavArea>, k: int, q: int)
    requires
        slices_sorted(areas),
        0 <= k <= q < areas.len(),
        k == 0 || areas[k - 1].slice != areas[k].slice,
        areas[k].slice == areas[q].slice,
    ensures
        area_index(areas, q) == q - k,
{
    lemma_area_index_run(areas, k, q);
}

/// The edge is that of a pair of linked areas, the later one among the first `k`.
pub open spec fn is_linked_edge(areas: Seq<SliceNavArea>, entry: EdgeEntry, k: int) -> bool {
    exists|p: int, q: int|
        #![trigger edge_of(areas, p, q)]
        linked(areas, p, q) && q < k && entry == edge_of(areas, p, q)
}

/// Every edge is that of a pair of linked areas, the later one among the first `k`.
pub open spec fn edges_sound(areas: Seq<SliceNavArea>, edges: Seq<EdgeEntry>, k: int) -> bool {
    forall|e: int| 0 <= e < edges.len() ==> is_linked_edge(areas, #[trigger] edges[e], k)
}

/// Every pair of linked areas, the later one among the first `k`, has its edge.
pub open spec fn edges_complete(areas: Seq<SliceNavArea>, edges: Seq<EdgeEntry>, k: int) -> bool {
    forall|p: int, q: int|
        #[trigger] linked(areas, p, q) && q < k ==> exists|e: int|
            0 <= e < edges.len() && #[trigger] edges[e] == edge_of(areas, p, q)
}

/// No two edges join the same source to the same target.
pub open spec fn edge_keys_unique(edges: Seq<EdgeEntry>) -> bool {
    forall|a: int, b: int|
        0 <= a < b < edges.len() ==> !(#[trigger] edges[a].0 == #[trigger] edges[b].0 && edges[a].1
            == edges[b].1)
}

/// An area whose free space still reaches the slice being linked.
struct AreaInProgress {
    height_left: u8,
    area: NodeKey,
    /// (from x, from y, to x, to y) inclusive
    range: AreaRange,
    /// The area's position among the slab's areas.
    index: usize,
}

/// The entry stands for an area whose space reaches slice `s`, with the height it has left
/// there.
spec fn in_progress_ok(areas: Seq<SliceNavArea>, w: AreaInProgress, s: int) -> bool {
    &&& 0 <= w.index < areas.len()
    &&& alive_at(areas, w.index as int, s)
    &&& w.height_left == areas[w.index as int].slice + areas[w.index as int].height - s
    &&& w.area == node_of(areas, w.index as int)
    &&& w.range == range_of(areas, w.index as int)
}

/// The working entries are, in order, exactly the first `k` areas whose space reaches slice
/// `s`.
spec fn working_ok(areas: Seq<SliceNavArea>, working: Seq<AreaInProgress>, k: int, s: int) -> bool {
    &&& forall|w: int|
        0 <= w < working.len() ==> in_progress_ok(areas, #[trigger] working[w], s)
            && working[w].index < k
    &&& forall|a: int, b: int|
        0 <= a < b < working.len() ==> #[trigger] working[a].index < #[trigger] working[b].index
    &&& forall|p: int|
        0 <= p < k && #[trigger] alive_at(areas, p, s) ==> exists|w: int|
            0 <= w < working.len() && #[trigger] working[w].index == p
}

/// Moves the working areas up to a slice `decay` slices higher, dropping those whose space
/// does not reach it.
fn decay_working(
    working: Vec<AreaInProgress>,
    decay: u8,
    Ghost(areas): Ghost<Seq<SliceNavArea>>,
    Ghost(k): Ghost<int>,
    Ghost(last): Ghost<int>,
) -> (r: Vec<AreaInProgress>)
    requires
        working_ok(areas, working@, k, last),
        0 <= k <= areas.len(),
        forall|p: int| 0 <= p < k ==> #[trigger] areas[p].slice <= last,
    ensures
        working_ok(areas, r@, k, last + decay),
{
    let ghost s = last + decay;
    let mut out: Vec<AreaInProgress> = Vec::new();
    let mut w: usize = 0;
    while w < working.len()
        invariant
            working_ok(areas, working@, k, last),
            0 <= k <= areas.len(),
            s == last + decay,
            forall|p: int| 0 <= p < k ==> #[trigger] areas[p].slice <= last,
            w <= working@.len(),
            forall|c: int|
                0 <= c < out@.len() ==> in_progress_ok(areas, #[trigger] out@[c], s)
                    && out@[c].index < k,
            forall|a: int, b: int|
                0 <= a < b < out@.len() ==> #[trigger] out@[a].index < #[trigger] out@[b].index,
            w < working@.len() ==> forall|c: int|
                0 <= c < out@.len() ==> #[trigger] out@[c].index < working@[w as int].index,
            forall|v: int|
                0 <= v < w && alive_at(areas, working@[v].index as int, s) ==> exists|c: int|
                    0 <= c < out@.len() && #[trigger] out@[c].index == #[trigger] working@[v].index,
        decreases working@.len() - w,
    {
        let e = &working[w];
        let ghost out_before = out@;
        proof {
            assert(in_progress_ok(areas, working@[w as int], last));
        }
        if e.height_left > decay {
            let ghost before = out@;
            out.push(AreaInProgress {
                height_left: e.height_left - decay,
                area: e.area,
                range: e.range,
                index: e.index,
            });
            proof {
                assert(out@[before.len() as int].index == working@[w as int].index);
            }
        }
        proof {
            if w + 1 < working@.len() {
                assert(working@[w as int].index < working@[w + 1].index);
            }
            assert forall|v: int|
                0 <= v < w + 1 && alive_at(areas, working@[v].index as int, s) implies exists|c: int|
                    0 <= c < out@.len() && #[trigger] out@[c].index == #[trigger] working@[v].index by {
                if v < w {
                    let c = choose|c: int|
                        0 <= c < out_before.len() && #[trigger] out_before[c].index == working@[v].index;
                    assert(out@[c] == out_before[c]);
                } else {
                    assert(out@[out_before.len() as int].index == working@[w as int].index);
                }
            }
        }
        w = w + 1;
    }
    proof {
        assert forall|p: int| 0 <= p < k && #[trigger] alive_at(areas, p, s) implies exists|c: int|
            0 <= c < out@.len() && #[trigger] out@[c].index == p by {
            assert(areas[p].slice <= last);
            assert(alive_at(areas, p, last));
            let v = choose|v: int| 0 <= v < working@.len() && #[trigger] working@[v].index == p;
            assert(alive_at(areas, working@[v].index as int, s));
        }
    }
    out
}

/// Edges of pairs whose later area is among the first `k` are edges of pairs whose later area
/// is among the first `end`, for `end` past `k`.
proof fn lemma_edges_sound_more(areas: Seq<SliceNavArea>, edges: Seq<EdgeEntry>, k: int, end: int)
    requires
        edges_sound(areas, edges, k),
        k <= end,
    ensures
        edges_sound(areas, edges, end),
{
    assert forall|e: int| 0 <= e < edges.len() implies is_linked_edge(areas, #[trigger] edges[e], end) by {
        assert(is_linked_edge(areas, edges[e], k));
        let (p2, q2) = choose|p2: int, q2: int|
            #![trigger edge_of(areas, p2, q2)]
            linked(areas, p2, q2) && q2 < k && edges[e] == edge_of(areas, p2, q2);
        assert(linked(areas, p2, q2) && q2 < end && edges[e] == edge_of(areas, p2, q2));
    }
}

/// Links each area of the slice that starts at position `k` (and ends before `end`) to each
/// working area before it whose range touches its range, unless the edge is there already.
fn link_up(
    working: &Vec<AreaInProgress>,
    slice: u8,
    graph: &mut SlabNavGraphType,
    Ghost(areas): Ghost<Seq<SliceNavArea>>,
    Ghost(k): Ghost<int>,
    Ghost(end): Ghost<int>,
)
    requires
        graph_input_ok(areas),
        0 <= k < end <= areas.len(),
        working_ok(areas, working@, end, slice as int),
        forall|q: int| k <= q < end ==> #[trigger] areas[q].slice == slice,
        forall|p: int| 0 <= p < k ==> #[trigger] areas[p].slice < slice,
        edges_sound(areas, graph_edges(*old(graph)), k),
        edges_complete(areas, graph_edges(*old(graph)), k),
        edge_keys_unique(graph_edges(*old(graph))),
        graph_nodes(*old(graph)) == Seq::new(end as nat, |p: int| node_of(areas, p)),
    ensures
        edges_sound(areas, graph_edges(*final(graph)), end),
        edges_complete(areas, graph_edges(*final(graph)), end),
        edge_keys_unique(graph_edges(*final(graph))),
        graph_nodes(*final(graph)) == graph_nodes(*old(graph)),
{
    let ghost nodes = graph_nodes(*graph);
    proof {
        lemma_edges_sound_more(areas, graph_edges(*graph), k, end);
    }
    let n = working.len();
    let mut i: usize = 0;
    while i < n
        invariant
            graph_input_ok(areas),
            0 <= k < end <= areas.len(),
            n == working@.len(),
            i <= n,
            working_ok(areas, working@, end, slice as int),
            forall|q: int| k <= q < end ==> #[trigger] areas[q].slice == slice,
            forall|p: int| 0 <= p < k ==> #[trigger] areas[p].slice < slice,
            edges_sound(areas, graph_edges(*graph), end),
            edges_complete(areas, graph_edges(*graph), k),
            edge_keys_unique(graph_edges(*graph)),
            graph_nodes(*graph) == nodes,
            nodes == Seq::new(end as nat, |p: int| node_of(areas, p)),
            forall|a: int, b: int|
                0 <= a < i && a < b < n && working@[b].area.0 == slice && #[trigger] linked(
                    areas,
                    working@[a].index as int,
                    working@[b].index as int,
                ) ==> exists|e: int|
                    0 <= e < graph_edges(*graph).len() && #[trigger] graph_edges(*graph)[e]
                        == edge_of(areas, working@[a].index as int, working@[b].index as int),
        decreases n - i,
    {
        let a = &working[i];
        let mut j: usize = i + 1;
        while j < n
            invariant
                graph_input_ok(areas),
                0 <= k < end <= areas.len(),
                n == working@.len(),
                i < n,
                i + 1 <= j <= n,
                a == working@[i as int],
                working_ok(areas, working@, end, slice as int),
                forall|q: int| k <= q < end ==> #[trigger] areas[q].slice == slice,
                forall|p: int| 0 <= p < k ==> #[trigger] areas[p].slice < slice,
                edges_sound(areas, graph_edges(*graph), end),
                edges_complete(areas, graph_edges(*graph), k),
                edge_keys_unique(graph_edges(*graph)),
                graph_nodes(*graph) == nodes,
                nodes == Seq::new(end as nat, |p: int| node_of(areas, p)),
                forall|a2: int, b: int|
                    ((0 <= a2 < i && a2 < b < n) || (a2 == i && i < b < j)) && working@[b].area.0
                        == slice && #[trigger] linked(
                        areas,
                        working@[a2].index as int,
                        working@[b].index as int,
                    ) ==> exists|e: int|
                        0 <= e < graph_edges(*graph).len() && #[trigger] graph_edges(*graph)[e]
                            == edge_of(areas, working@[a2].index as int, working@[b].index as int),
            decreases n - j,
        {
            let b = &working[j];
            let ghost p = a.index as int;
            let ghost q = b.index as int;
            proof {
                assert(in_progress_ok(areas, working@[i as int], slice as int));
                assert(in_progress_ok(areas, working@[j as int], slice as int));
                assert(working@[i as int].index < working@[j as int].index);
                assert(areas[p].to.0 < u8::MAX);
            }
            // skip all considered so far and this one itself, and any out of reach
            if b.area.0 == slice {
                if areas_touch(a.range, b.range) && !graph_contains_edge(graph, a.area, b.area) {
                    let clearance = if a.height_left < b.height_left {
                        a.height_left
                    } else {
                        b.height_left
                    };
                    let height_diff = slice - a.area.0;
                    let ghost before = graph_edges(*graph);
                    proof {
                        assert(nodes[p] == a.area);
                        assert(nodes[q] == b.area);
                        assert(linked(areas, p, q));
                        assert((a.area, b.area, (clearance, height_diff)) == edge_of(areas, p, q));
                    }
                    let prev = graph_add_edge(graph, a.area, b.area, (clearance, height_diff));
                    proof {
                        if let Some(w) = prev {
                            let e = choose|e: int| 0 <= e < before.len() && before[e] == (a.area, b.area, w);
                            assert(before[e].0 == a.area && before[e].1 == b.area);
                            assert(has_edge_key(before, a.area, b.area));
                        }
                        assert(prev is None);
                        assert(graph_nodes(*graph) =~= nodes);
                        let edges = graph_edges(*graph);
                        assert(edges[before.len() as int] == edge_of(areas, p, q));
                        assert forall|e: int| 0 <= e < edges.len() implies is_linked_edge(areas, #[trigger] edges[e], end as int) by {
                            if e < before.len() {
                                assert(edges[e] == before[e]);
                            }
                        }
                        assert forall|a2: int, b2: int|
                            ((0 <= a2 < i && a2 < b2 < n) || (a2 == i && i < b2 < j + 1)) && working@[b2].area.0
                                == slice && #[trigger] linked(
                                areas,
                                working@[a2].index as int,
                                working@[b2].index as int,
                            ) implies exists|e: int|
                                0 <= e < edges.len() && #[trigger] edges[e] == edge_of(
                                    areas,
                                    working@[a2].index as int,
                                    working@[b2].index as int,
                                ) by {
                            if a2 == i && b2 == j {
                                assert(edges[before.len() as int] == edge_of(areas, p, q));
                            } else {
                                let e = choose|e: int|
                                    0 <= e < before.len() && #[trigger] before[e] == edge_of(
                                        areas,
                                        working@[a2].index as int,
                                        working@[b2].index as int,
                                    );
                                assert(edges[e] == before[e]);
                            }
                        }
                        assert forall|p2: int, q2: int| #[trigger] linked(areas, p2, q2) && q2 < k implies exists|e: int|
                            0 <= e < edges.len() && #[trigger] edges[e] == edge_of(areas, p2, q2) by {
                            let e = choose|e: int| 0 <= e < before.len() && #[trigger] before[e] == edge_of(areas, p2, q2);
                            assert(edges[e] == before[e]);
                        }
                    }
                } else {
                    proof {
                        let edges = graph_edges(*graph);
                        if linked(areas, p, q) {
                            // the edge is there already, and it can only be this pair's
                            assert(has_edge_key(edges, a.area, b.area));
                            let e = choose|e: int| 0 <= e < edges.len() && #[trigger] edges[e].0 == a.area && edges[e].1 == b.area;
                            assert(is_linked_edge(areas, edges[e], end as int));
                            let (p2, q2) = choose|p2: int, q2: int|
                                #![trigger edge_of(areas, p2, q2)]
                                linked(areas, p2, q2) && q2 < end && edges[e] == edge_of(areas, p2, q2);
                            lemma_node_of_injective(areas, p, p2);
                            lemma_node_of_injective(areas, q, q2);
                            assert(edges[e] == edge_of(areas, p, q));
                        }
                    }
                }
            }
            j = j + 1;
        }
        i = i + 1;
    }
    proof {
        lemma_link_complete(areas, working@, slice, k, end, graph_edges(*graph));
    }
}

/// Once every working pair whose later area is in the slice being linked has its edge, every
/// linked pair whose later area is among the first `end` has its edge.
proof fn lemma_link_complete(
    areas: Seq<SliceNavArea>,
    working: Seq<AreaInProgress>,
    slice: u8,
    k: int,
    end: int,
    edges: Seq<EdgeEntry>,
)
    requires
        graph_input_ok(areas),
        0 <= k < end <= areas.len(),
        working_ok(areas, working, end, slice as int),
        forall|q: int| k <= q < end ==> #[trigger] areas[q].slice == slice,
        forall|p: int| 0 <= p < k ==> #[trigger] areas[p].slice < slice,
        edges_complete(areas, edges, k),
        forall|a: int, b: int|
            0 <= a < b < working.len() && working[b].area.0 == slice && #[trigger] linked(
                areas,
                working[a].index as int,
                working[b].index as int,
            ) ==> exists|e: int|
                0 <= e < edges.len() && #[trigger] edges[e] == edge_of(
                    areas,
                    working[a].index as int,
                    working[b].index as int,
                ),
    ensures
        edges_complete(areas, edges, end),
{
    assert forall|p: int, q: int| #[trigger] linked(areas, p, q) && q < end implies exists|e: int|
        0 <= e < edges.len() && #[trigger] edges[e] == edge_of(areas, p, q) by {
        if q >= k {
            // both areas are working: the later one is in this slice, the earlier one's
            // space reaches it
            assert(areas[q].slice == slice);
            assert(areas[p].slice <= areas[q].slice);
            assert(alive_at(areas, p, slice as int));
            assert(alive_at(areas, q, slice as int));
            let wp = choose|w: int| 0 <= w < working.len() && #[trigger] working[w].index == p;
            let wq = choose|w: int| 0 <= w < working.len() && #[trigger] working[w].index == q;
            assert(in_progress_ok(areas, working[wq], slice as int));
            if wp >= wq {
                if wp > wq {
                    assert(working[wq].index < working[wp].index);
                }
            }
            assert(linked(areas, working[wp].index as int, working[wq].index as int));
        }
    }
}

/// Every edge of a slab's graph climbs from the slice of its source to the slice of its
/// target, never down, by the difference of the two, and someone can pass it.
pub proof fn lemma_edges_upwards(areas: Seq<SliceNavArea>, edges: Seq<EdgeEntry>)
    requires
        graph_input_ok(areas),
        edges_sound(areas, edges, areas.len() as int),
    ensures
        forall|e: int|
            0 <= e < edges.len() ==> (#[trigger] edges[e]).0.0 <= edges[e].1.0 && edges[e].2.1
                == edges[e].1.0 - edges[e].0.0 && edges[e].2.0 > 0,
{
    assert forall|e: int| 0 <= e < edges.len() implies (#[trigger] edges[e]).0.0 <= edges[e].1.0
        && edges[e].2.1 == edges[e].1.0 - edges[e].0.0 && edges[e].2.0 > 0 by {
        assert(is_linked_edge(areas, edges[e], areas.len() as int));
        let (p, q) = choose|p: int, q: int|
            #![trigger edge_of(areas, p, q)]
            linked(areas, p, q) && q < areas.len() && edges[e] == edge_of(areas, p, q);
        assert(areas[q].height > 0);
    }
}

/// Graph of areas within a single slab
pub struct SlabNavGraph {
    graph: SlabNavGraphType,
}

/// The area a graph node stands for.
pub open spec fn slab_area_of(n: NodeKey) -> SlabArea {
    SlabArea { slice_idx: n.0, slice_area: SliceAreaIndex(n.1) }
}

/// The edge a graph edge stands for.
pub open spec fn nav_edge_of(e: EdgeEntry) -> (SlabArea, SlabArea, SlabNavEdge) {
    (slab_area_of(e.0), slab_area_of(e.1), SlabNavEdge { clearance: e.2.0, height_diff: e.2.1 })
}

impl SlabNavGraph {
    /// The nodes, in the order they were added.
    pub closed spec fn nodes_view(&self) -> Seq<NodeKey> {
        graph_nodes(self.graph)
    }

    /// The edges, in the order they were added.
    pub closed spec fn edges_view(&self) -> Seq<EdgeEntry> {
        graph_edges(self.graph)
    }

    pub fn empty() -> (r: Self)
        ensures
            r.nodes_view() == Seq::<NodeKey>::empty(),
            r.edges_view() == Seq::<EdgeEntry>::empty(),
    {
        Self { graph: graph_new() }
    }

    /// The graph of the areas of a slab, given slice by slice from the bottom: a node for each
    /// area, its slice and its index in the slice (see [node_of]), in order; an edge from each
    /// area up to each later area that its space reaches and whose range touches its own (see
    /// [linked] and [edge_of]), and no other edges.
    pub fn discover(areas: &[SliceNavArea]) -> (r: Self)
        requires
            graph_input_ok(areas@),
        ensures
            r.nodes_view() == Seq::new(areas@.len(), |p: int| node_of(areas@, p)),
            edges_sound(areas@, r.edges_view(), areas@.len() as int),
            edges_complete(areas@, r.edges_view(), areas@.len() as int),
            edge_keys_unique(r.edges_view()),
    {
        if areas.len() == 0 {
            let r = Self::empty();
            proof {
                assert(r.nodes_view() =~= Seq::new(areas@.len(), |p: int| node_of(areas@, p)));
            }
            return r;
        }
        let ghost av = areas@;
        let mut working: Vec<AreaInProgress> = Vec::new();
        let mut graph = graph_with_capacity(32, 16);
        let mut last_slice_idx: u8 = 0;
        let mut k: usize = 0;
        while k < areas.len()
            invariant
                av == areas@,
                graph_input_ok(av),
                k <= av.len(),
                k > 0 ==> last_slice_idx == av[k - 1].slice,
                k > 0 && k < av.len() ==> av[k - 1].slice != av[k as int].slice,
                k == 0 ==> working@.len() == 0 && last_slice_idx == 0,
                working_ok(av, working@, k as int, last_slice_idx as int),
                edges_sound(av, graph_edges(graph), k as int),
                edges_complete(av, graph_edges(graph), k as int),
                edge_keys_unique(graph_edges(graph)),
                graph_nodes(graph) == Seq::new(k as nat, |p: int| node_of(av, p)),
            decreases av.len() - k,
        {
            let slice = areas[k].slice;
            let mut end: usize = k;
            while end < areas.len() && areas[end].slice == slice
                invariant
                    av == areas@,
                    k <= end <= av.len(),
                    k < av.len(),
                    slice == av[k as int].slice,
                    forall|q: int| k <= q < end ==> #[trigger] av[q].slice == slice,
                decreases av.len() - end,
            {
                end = end + 1;
            }
            proof {
                assert forall|p: int| 0 <= p < k implies #[trigger] av[p].slice < slice by {
                    assert(av[p].slice <= av[k - 1].slice);
                    assert(av[k - 1].slice <= av[k as int].slice);
                }
                assert forall|p: int| 0 <= p < k implies #[trigger] av[p].slice <= last_slice_idx by {
                    assert(av[p].slice <= av[k - 1].slice);
                }
                if k > 0 {
                    assert(av[k - 1].slice <= av[k as int].slice);
                }
            }
            // decay prev slice (nonsense on first iter but working is empty)
            let decay = slice - last_slice_idx;
            let decayed = decay_working(working, decay, Ghost(av), Ghost(k as int), Ghost(last_slice_idx as int));
            working = decayed;
            last_slice_idx = slice;
            // apply new areas, creating their nodes at the same time
            let mut q: usize = k;
            while q < end
                invariant
                    av == areas@,
                    graph_input_ok(av),
                    k <= q <= end <= av.len(),
                    k < end,
                    k > 0 ==> av[k - 1].slice != av[k as int].slice,
                    forall|c: int| k <= c < end ==> #[trigger] av[c].slice == slice,
                    forall|p: int| 0 <= p < k ==> #[trigger] av[p].slice < slice,
                    working_ok(av, working@, q as int, slice as int),
                    edges_sound(av, graph_edges(graph), k as int),
                    edges_complete(av, graph_edges(graph), k as int),
                    edge_keys_unique(graph_edges(graph)),
                    graph_nodes(graph) == Seq::new(q as nat, |p: int| node_of(av, p)),
                decreases end - q,
            {
                let a = areas[q];
                proof {
                    lemma_area_index_start(av, k as int, q as int);
                    assert(area_index(av, q as int) < 256);
                }
                let area = graph_add_node(&mut graph, (slice, (q - k) as u8));
                let ghost before = working@;
                working.push(AreaInProgress {
                    height_left: a.height,
                    area,
                    range: (a.from, a.to),
                    index: q,
                });
                proof {
                    let nodes = Seq::new(q as nat, |p: int| node_of(av, p));
                    assert(area == node_of(av, q as int));
                    if nodes.contains(area) {
                        let c = choose|c: int| 0 <= c < nodes.len() && nodes[c] == area;
                        lemma_node_of_injective(av, c, q as int);
                    }
                    assert(graph_nodes(graph) =~= Seq::new((q + 1) as nat, |p: int| node_of(av, p)));
                    assert(av[q as int].height > 0);
                    assert(in_progress_ok(av, working@[before.len() as int], slice as int));
                    assert forall|w: int| 0 <= w < before.len() implies #[trigger] working@[w].index < q by {
                        assert(working@[w] == before[w]);
                    }
                    assert forall|p: int|
                        0 <= p < q + 1 && #[trigger] alive_at(av, p, slice as int) implies exists|w: int|
                            0 <= w < working@.len() && #[trigger] working@[w].index == p by {
                        if p < q {
                            let w = choose|w: int| 0 <= w < before.len() && #[trigger] before[w].index == p;
                            assert(working@[w] == before[w]);
                        } else {
                            assert(working@[before.len() as int].index == p);
                        }
                    }
                    assert forall|w: int| 0 <= w < working@.len() implies in_progress_ok(
                        av,
                        #[trigger] working@[w],
                        slice as int,
                    ) && working@[w].index < q + 1 by {
                        if w < before.len() {
                            assert(working@[w] == before[w]);
                        }
                    }
                }
                q = q + 1;
            }
            // link up
            link_up(&working, slice, &mut graph, Ghost(av), Ghost(k as int), Ghost(end as int));
            proof {
                if end < av.len() {
                    assert(av[end as int].slice != slice);
                }
            }
            k = end;
        }
        SlabNavGraph { graph }
    }

    pub fn iter_nodes(&self) -> (r: Vec<SlabArea>)
        ensures
            r@ == self.nodes_view().map_values(|n: NodeKey| slab_area_of(n)),
    {
        let nodes = graph_nodes_vec(&self.graph);
        let mut out: Vec<SlabArea> = Vec::new();
        let mut i: usize = 0;
        while i < nodes.len()
            invariant
                i <= nodes@.len(),
                out@ == nodes@.subrange(0, i as int).map_values(|n: NodeKey| slab_area_of(n)),
            decreases nodes@.len() - i,
        {
            let n = nodes[i];
            out.push(SlabArea { slice_idx: n.0, slice_area: SliceAreaIndex(n.1) });
            proof {
                assert(nodes@.subrange(0, i + 1) =~= nodes@.subrange(0, i as int).push(n));
                assert(out@ =~= nodes@.subrange(0, i + 1).map_values(|n: NodeKey| slab_area_of(n)));
            }
            i = i + 1;
        }
        proof {
            assert(nodes@.subrange(0, nodes@.len() as int) =~= nodes@);
        }
        out
    }

    pub fn iter_edges(&self) -> (r: Vec<(SlabArea, SlabArea, SlabNavEdge)>)
        ensures
            r@ == self.edges_view().map_values(|e: EdgeEntry| nav_edge_of(e)),
    {
        let edges = graph_edges_vec(&self.graph);
        let mut out: Vec<(SlabArea, SlabArea, SlabNavEdge)> = Vec::new();
        let mut i: usize = 0;
        while i < edges.len()
            invariant
                i <= edges@.len(),
                out@ == edges@.subrange(0, i as int).map_values(|e: EdgeEntry| nav_edge_of(e)),
            decreases edges@.len() - i,
        {
            let e = edges[i];
            out.push(
                (
                    SlabArea { slice_idx: e.0.0, slice_area: SliceAreaIndex(e.0.1) },
                    SlabArea { slice_idx: e.1.0, slice_area: SliceAreaIndex(e.1.1) },
                    SlabNavEdge { clearance: e.2.0, height_diff: e.2.1 },
                ),
            );
            proof {
                assert(edges@.subrange(0, i + 1) =~= edges@.subrange(0, i as int).push(e));
                assert(out@ =~= edges@.subrange(0, i + 1).map_values(|e: EdgeEntry| nav_edge_of(e)));
            }
            i = i + 1;
        }
        proof {
            assert(edges@.subrange(0, edges@.len() as int) =~= edges@);
        }
        out
    }
}

/// An area at a slab border, ready to be linked: whether it is of this slab, the slice its
/// space starts at (in the neighbour's reference when linking vertically), the height of the
/// space, its graph node and its range.
pub type BorderEntry = (bool, u8, u8, NodeKey, AreaRange);

/// An area of this slab (`this_slab`) or of the neighbour, as linking sees it: when linking
/// vertically an area of this slab starts at the neighbour's bottom with what protrudes into
/// it; otherwise it starts at its own slice with its own height.
pub open spec fn border_entry(a: (SliceNavArea, SliceAreaIndex), this_slab: bool, vertical: bool) -> BorderEntry {
    if this_slab && vertical {
        (true, 0u8, ((a.0.slice + a.0.height) % 32) as u8, (a.0.slice, a.1.0), (a.0.from, a.0.to))
    } else {
        (this_slab, a.0.slice, a.0.height, (a.0.slice, a.1.0), (a.0.from, a.0.to))
    }
}

/// The areas of this slab then those of the neighbour, as linking sees them.
pub open spec fn border_entries(
    this_areas: Seq<(SliceNavArea, SliceAreaIndex)>,
    neighbour_areas: Seq<(SliceNavArea, SliceAreaIndex)>,
    vertical: bool,
) -> Seq<BorderEntry> {
    this_areas.map_values(|a: (SliceNavArea, SliceAreaIndex)| border_entry(a, true, vertical))
        + neighbour_areas.map_values(
        |a: (SliceNavArea, SliceAreaIndex)| border_entry(a, false, vertical),
    )
}

/// The entries among the first `n` whose space starts at slice `s`, in order.
pub open spec fn bucket(entries: Seq<BorderEntry>, s: int, n: int) -> Seq<BorderEntry>
    decreases n,
{
    if n <= 0 {
        Seq::empty()
    } else if entries[n - 1].1 == s {
        bucket(entries, s, n - 1).push(entries[n - 1])
    } else {
        bucket(entries, s, n - 1)
    }
}

/// The entries whose space starts below slice `s`, slice by slice upwards, those of a slice in
/// their order: the entries sorted by start slice, ties kept in order.
pub open spec fn by_start(entries: Seq<BorderEntry>, s: int) -> Seq<BorderEntry>
    decreases s,
{
    if s <= 0 {
        Seq::empty()
    } else {
        by_start(entries, s - 1) + bucket(entries, s - 1, entries.len() as int)
    }
}

/// The space of the entry reaches slice `s`.
pub open spec fn border_alive(e: BorderEntry, s: int) -> bool {
    e.1 <= s < e.1 + e.2
}

/// Two ranges touch: along the border in the direction, or anywhere when linking vertically.
pub open spec fn border_touch(a: AreaRange, b: AreaRange, dir: Option<NeighbourOffset>) -> bool {
    match dir {
        Some(d) => border_areas_touch_spec(a, b, d),
        None => areas_touch_spec(a, b),
    }
}

/// Sorted entries `i` and `j` are linked: `i` comes first, they are on different sides of the
/// border, the space of `i` reaches the start of `j`, and their ranges touch.
pub open spec fn border_linked(sorted: Seq<BorderEntry>, i: int, j: int, dir: Option<NeighbourOffset>) -> bool {
    &&& 0 <= i < j < sorted.len()
    &&& sorted[i].0 != sorted[j].0
    &&& border_alive(sorted[i], sorted[j].1 as int)
    &&& border_touch(sorted[i].4, sorted[j].4, dir)
}

/// The edge between linked sorted entries `i` and `j`: from the area of this slab to the
/// neighbour's, as high as the lower of the two spaces where `j` starts, with the climb from
/// the slice of `i` up to that of `j` (across the border when linking vertically).
pub open spec fn border_edge_of(sorted: Seq<BorderEntry>, i: int, j: int, dir: Option<NeighbourOffset>) -> (
    SlabArea,
    SlabArea,
    SlabNavEdge,
) {
    let a = sorted[i];
    let b = sorted[j];
    let left_a = a.1 + a.2 - b.1;
    let left_b = b.2 as int;
    let clearance = if left_a < left_b {
        left_a
    } else {
        left_b
    };
    let diff = if dir is None {
        (b.1 + 32) - a.3.0 + 1
    } else {
        b.3.0 - a.3.0
    };
    let edge = SlabNavEdge { clearance: clearance as u8, height_diff: diff as u8 };
    if a.0 {
        (slab_area_of(a.3), slab_area_of(b.3), edge)
    } else {
        (slab_area_of(b.3), slab_area_of(a.3), edge)
    }
}

/// Areas fit for linking across a border: slices inside the slab, ranges whose far corner is
/// below the coordinate limit, each with free space; when linking vertically, each area of
/// this slab protrudes into the slab above, by less than a slab.
pub open spec fn border_input_ok(areas: Seq<(SliceNavArea, SliceAreaIndex)>, this_slab: bool, vertical: bool) -> bool {
    forall|p: int|
        0 <= p < areas.len() ==> {
            let a = #[trigger] areas[p].0;
            &&& a.slice < 32
            &&& a.to.0 < u8::MAX && a.to.1 < u8::MAX
            &&& if this_slab && vertical {
                32 <= a.slice + a.height <= u8::MAX && (a.slice + a.height) % 32 != 0
            } else {
                a.height > 0
            }
        }
}

/// Every edge is that of a pair of linked sorted entries, the later one among the first `n`.
pub open spec fn border_edges_sound(
    sorted: Seq<BorderEntry>,
    edges: Seq<(SlabArea, SlabArea, SlabNavEdge)>,
    n: int,
    dir: Option<NeighbourOffset>,
) -> bool {
    forall|e: int| 0 <= e < edges.len() ==> is_border_linked_edge(sorted, #[trigger] edges[e], n, dir)
}

/// The edge is that of a pair of linked sorted entries, the later one among the first `n`.
pub open spec fn is_border_linked_edge(
    sorted: Seq<BorderEntry>,
    edge: (SlabArea, SlabArea, SlabNavEdge),
    n: int,
    dir: Option<NeighbourOffset>,
) -> bool {
    exists|i: int, j: int|
        #![trigger border_edge_of(sorted, i, j, dir)]
        border_linked(sorted, i, j, dir) && j < n && edge == border_edge_of(sorted, i, j, dir)
}

/// Every pair of linked sorted entries, the later one among the first `n`, has its edge.
pub open spec fn border_edges_complete(
    sorted: Seq<BorderEntry>,
    edges: Seq<(SlabArea, SlabArea, SlabNavEdge)>,
    n: int,
    dir: Option<NeighbourOffset>,
) -> bool {
    forall|i: int, j: int|
        #[trigger] border_linked(sorted, i, j, dir) && j < n ==> exists|e: int|
            0 <= e < edges.len() && #[trigger] edges[e] == border_edge_of(sorted, i, j, dir)
}

/// The entry of an area as linking sees it (see [border_entry]).
fn new_border_entry(a: &(SliceNavArea, SliceAreaIndex), this_slab: bool, vertical: bool) -> (r: BorderEntry)
    requires
        a.0.slice < 32,
        this_slab && vertical ==> a.0.slice + a.0.height <= u8::MAX,
    ensures
        r == border_entry(*a, this_slab, vertical),
{
    let (area, idx) = a;
    if this_slab && vertical {
        (true, 0, (area.slice + area.height) % 32, (area.slice, idx.0), (area.from, area.to))
    } else {
        (this_slab, area.slice, area.height, (area.slice, idx.0), (area.from, area.to))
    }
}

/// Every entry of a bucket starts at its slice.
proof fn lemma_bucket_start(entries: Seq<BorderEntry>, s: int, n: int)
    requires
        0 <= n <= entries.len(),
    ensures
        forall|g: int| 0 <= g < bucket(entries, s, n).len() ==> #[trigger] bucket(entries, s, n)[g].1 == s,
        bucket(entries, s, n).len() <= n,
    decreases n,
{
    if n > 0 {
        lemma_bucket_start(entries, s, n - 1);
    }
}

/// The entries sorted up to slice `s` all start below it, and come first among those sorted up
/// to any higher slice.
proof fn lemma_by_start_prefix(entries: Seq<BorderEntry>, s: int, t: int)
    requires
        0 <= s <= t,
    ensures
        by_start(entries, s).len() <= by_start(entries, t).len(),
        forall|p: int| 0 <= p < by_start(entries, s).len() ==> #[trigger] by_start(entries, t)[p] == by_start(entries, s)[p],
        forall|p: int| 0 <= p < by_start(entries, s).len() ==> #[trigger] by_start(entries, s)[p].1 < s,
    decreases t,
{
    if t > s {
        lemma_by_start_prefix(entries, s, t - 1);
        let prev = by_start(entries, t - 1);
        assert(by_start(entries, t) == prev + bucket(entries, t - 1, entries.len() as int));
        assert forall|p: int| 0 <= p < by_start(entries, s).len() implies #[trigger] by_start(entries, t)[p] == by_start(entries, s)[p] by {
            assert(by_start(entries, t)[p] == prev[p]);
        }
    } else if s > 0 {
        lemma_by_start_prefix(entries, s - 1, s - 1);
        let prev = by_start(entries, s - 1);
        lemma_bucket_start(entries, s - 1, entries.len() as int);
        assert forall|p: int| 0 <= p < by_start(entries, s).len() implies #[trigger] by_start(entries, s)[p].1 < s by {
            if p < prev.len() {
                assert(by_start(entries, s)[p] == prev[p]);
            } else {
                assert(by_start(entries, s)[p] == bucket(entries, s - 1, entries.len() as int)[p - prev.len()]);
            }
        }
    }
}

/// An area at a border whose space still reaches the slice being linked.
struct BorderInProgress {
    /// False = neighbour
    this_slab: bool,
    height_left: u8,
    area: NodeKey,
    /// (from x, from y, to x, to y) inclusive within its own slab
    range: AreaRange,
    /// Effective start slice in neighbour slab reference
    start_slice: u8,
    /// The area's position among the sorted entries.
    pos: Ghost<int>,
}

/// The working entry stands for sorted entry `pos`, whose space reaches slice `s`, with the
/// height it has left there.
spec fn border_in_progress_ok(sorted: Seq<BorderEntry>, w: BorderInProgress, s: int) -> bool {
    let e = sorted[w.pos@];
    &&& 0 <= w.pos@ < sorted.len()
    &&& border_alive(e, s)
    &&& w.this_slab == e.0
    &&& w.start_slice == e.1
    &&& w.area == e.3
    &&& w.range == e.4
    &&& w.height_left == e.1 + e.2 - s
}

/// The working entries are, in order, exactly the first `n` sorted entries whose space reaches
/// slice `s`.
spec fn border_working_ok(sorted: Seq<BorderEntry>, working: Seq<BorderInProgress>, n: int, s: int) -> bool {
    &&& forall|w: int|
        0 <= w < working.len() ==> border_in_progress_ok(sorted, #[trigger] working[w], s)
            && working[w].pos@ < n
    &&& forall|a: int, b: int|
        0 <= a < b < working.len() ==> #[trigger] working[a].pos@ < #[trigger] working[b].pos@
    &&& forall|p: int|
        0 <= p < n && #[trigger] border_alive(sorted[p], s) ==> exists|w: int|
            0 <= w < working.len() && #[trigger] working[w].pos@ == p
}

/// Moves the working entries up to a slice `decay` slices higher, dropping those whose space
/// does not reach it.
fn decay_border(
    working: Vec<BorderInProgress>,
    decay: u8,
    Ghost(sorted): Ghost<Seq<BorderEntry>>,
    Ghost(n): Ghost<int>,
    Ghost(last): Ghost<int>,
) -> (r: Vec<BorderInProgress>)
    requires
        border_working_ok(sorted, working@, n, last),
        0 <= n <= sorted.len(),
        forall|p: int| 0 <= p < n ==> #[trigger] sorted[p].1 <= last,
    ensures
        border_working_ok(sorted, r@, n, last + decay),
{
    let ghost s = last + decay;
    let mut out: Vec<BorderInProgress> = Vec::new();
    let mut w: usize = 0;
    while w < working.len()
        invariant
            border_working_ok(sorted, working@, n, last),
            0 <= n <= sorted.len(),
            s == last + decay,
            forall|p: int| 0 <= p < n ==> #[trigger] sorted[p].1 <= last,
            w <= working@.len(),
            forall|c: int|
                0 <= c < out@.len() ==> border_in_progress_ok(sorted, #[trigger] out@[c], s)
                    && out@[c].pos@ < n,
            forall|a: int, b: int|
                0 <= a < b < out@.len() ==> #[trigger] out@[a].pos@ < #[trigger] out@[b].pos@,
            w < working@.len() ==> forall|c: int|
                0 <= c < out@.len() ==> #[trigger] out@[c].pos@ < working@[w as int].pos@,
            forall|v: int|
                0 <= v < w && border_alive(sorted[working@[v].pos@], s) ==> exists|c: int|
                    0 <= c < out@.len() && #[trigger] out@[c].pos@ == #[trigger] working@[v].pos@,
        decreases working@.len() - w,
    {
        let e = &working[w];
        let ghost out_before = out@;
        proof {
            assert(border_in_progress_ok(sorted, working@[w as int], last));
        }
        if e.height_left > decay {
            out.push(BorderInProgress {
                this_slab: e.this_slab,
                height_left: e.height_left - decay,
                area: e.area,
                range: e.range,
                start_slice: e.start_slice,
                pos: Ghost(e.pos@),
            });
        }
        proof {
            if w + 1 < working@.len() {
                assert(working@[w as int].pos@ < working@[w + 1].pos@);
            }
            assert forall|v: int|
                0 <= v < w + 1 && border_alive(sorted[working@[v].pos@], s) implies exists|c: int|
                    0 <= c < out@.len() && #[trigger] out@[c].pos@ == #[trigger] working@[v].pos@ by {
                if v < w {
                    let c = choose|c: int|
                        0 <= c < out_before.len() && #[trigger] out_before[c].pos@ == working@[v].pos@;
                    assert(out@[c] == out_before[c]);
                } else {
                    assert(out@[out_before.len() as int].pos@ == working@[w as int].pos@);
                }
            }
        }
        w = w + 1;
    }
    proof {
        assert forall|p: int| 0 <= p < n && #[trigger] border_alive(sorted[p], s) implies exists|c: int|
            0 <= c < out@.len() && #[trigger] out@[c].pos@ == p by {
            assert(sorted[p].1 <= last);
            assert(border_alive(sorted[p], last));
            let v = choose|v: int| 0 <= v < working@.len() && #[trigger] working@[v].pos@ == p;
            assert(border_alive(sorted[working@[v].pos@], s));
        }
    }
    out
}

/// Edges of pairs whose later entry is among the first `n` are edges of pairs whose later
/// entry is among the first `end`, for `end` past `n`.
proof fn lemma_border_sound_more(
    sorted: Seq<BorderEntry>,
    edges: Seq<(SlabArea, SlabArea, SlabNavEdge)>,
    n: int,
    end: int,
    dir: Option<NeighbourOffset>,
)
    requires
        border_edges_sound(sorted, edges, n, dir),
        n <= end,
    ensures
        border_edges_sound(sorted, edges, end, dir),
{
    assert forall|e: int| 0 <= e < edges.len() implies is_border_linked_edge(sorted, #[trigger] edges[e], end, dir) by {
        assert(is_border_linked_edge(sorted, edges[e], n, dir));
        let (i, j) = choose|i: int, j: int|
            #![trigger border_edge_of(sorted, i, j, dir)]
            border_linked(sorted, i, j, dir) && j < n && edges[e] == border_edge_of(sorted, i, j, dir);
        assert(border_linked(sorted, i, j, dir) && j < end && edges[e] == border_edge_of(sorted, i, j, dir));
    }
}

/// Once every working pair whose later entry starts at the slice being linked has its edge,
/// every linked pair whose later entry is among the first `end` has its edge.
proof fn lemma_border_complete(
    sorted: Seq<BorderEntry>,
    working: Seq<BorderInProgress>,
    slice: u8,
    n: int,
    end: int,
    edges: Seq<(SlabArea, SlabArea, SlabNavEdge)>,
    dir: Option<NeighbourOffset>,
)
    requires
        0 <= n <= end <= sorted.len(),
        border_working_ok(sorted, working, end, slice as int),
        forall|q: int| n <= q < end ==> #[trigger] sorted[q].1 == slice,
        forall|p: int| 0 <= p < n ==> #[trigger] sorted[p].1 < slice,
        forall|p: int| 0 <= p < sorted.len() ==> #[trigger] sorted[p].2 > 0,
        border_edges_complete(sorted, edges, n, dir),
        forall|a: int, b: int|
            0 <= a < b < working.len() && working[b].start_slice == slice && #[trigger] border_linked(
                sorted,
                working[a].pos@,
                working[b].pos@,
                dir,
            ) ==> exists|e: int|
                0 <= e < edges.len() && #[trigger] edges[e] == border_edge_of(
                    sorted,
                    working[a].pos@,
                    working[b].pos@,
                    dir,
                ),
    ensures
        border_edges_complete(sorted, edges, end, dir),
{
    assert forall|i: int, j: int| #[trigger] border_linked(sorted, i, j, dir) && j < end implies exists|e: int|
        0 <= e < edges.len() && #[trigger] edges[e] == border_edge_of(sorted, i, j, dir) by {
        if j >= n {
            // both are working: the later one starts at this slice, the earlier one's space
            // reaches it
            assert(sorted[j].1 == slice);
            assert(border_alive(sorted[i], slice as int));
            assert(sorted[j].2 > 0);
            assert(border_alive(sorted[j], slice as int));
            let wi = choose|w: int| 0 <= w < working.len() && #[trigger] working[w].pos@ == i;
            let wj = choose|w: int| 0 <= w < working.len() && #[trigger] working[w].pos@ == j;
            assert(border_in_progress_ok(sorted, working[wj], slice as int));
            if wi >= wj {
                if wi > wj {
                    assert(working[wj].pos@ < working[wi].pos@);
                }
            }
            assert(border_linked(sorted, working[wi].pos@, working[wj].pos@, dir));
        }
    }
}

/// Links each working entry that starts at the slice (those among the first `end` sorted
/// entries past the first `n`) to each working entry before it from the other side of the
/// border whose range touches its range, appending the edges.
fn link_border(
    working: &Vec<BorderInProgress>,
    slice: u8,
    neighbour_dir: Option<NeighbourOffset>,
    out: &mut Vec<(SlabArea, SlabArea, SlabNavEdge)>,
    Ghost(sorted): Ghost<Seq<BorderEntry>>,
    Ghost(n): Ghost<int>,
    Ghost(end): Ghost<int>,
)
    requires
        0 <= n <= end <= sorted.len(),
        neighbour_dir matches Some(d) ==> d.aligned(),
        border_working_ok(sorted, working@, end, slice as int),
        forall|q: int| n <= q < end ==> #[trigger] sorted[q].1 == slice,
        forall|p: int| 0 <= p < n ==> #[trigger] sorted[p].1 < slice,
        forall|p: int|
            0 <= p < sorted.len() ==> #[trigger] sorted[p].2 > 0 && sorted[p].1 < 32 && sorted[p].3.0 < 32
                && sorted[p].4.1.0 < u8::MAX && sorted[p].4.1.1 < u8::MAX
                && (neighbour_dir is Some ==> sorted[p].1 == sorted[p].3.0),
        border_edges_sound(sorted, old(out)@, n, neighbour_dir),
        border_edges_complete(sorted, old(out)@, n, neighbour_dir),
    ensures
        border_edges_sound(sorted, final(out)@, end, neighbour_dir),
        border_edges_complete(sorted, final(out)@, end, neighbour_dir),
{
    proof {
        lemma_border_sound_more(sorted, out@, n, end, neighbour_dir);
    }
    let vertical = neighbour_dir.is_none();
    let len = working.len();
    let mut i: usize = 0;
    while i < len
        invariant
            0 <= n <= end <= sorted.len(),
            neighbour_dir matches Some(d) ==> d.aligned(),
            vertical == neighbour_dir is None,
            len == working@.len(),
            i <= len,
            border_working_ok(sorted, working@, end, slice as int),
            forall|q: int| n <= q < end ==> #[trigger] sorted[q].1 == slice,
            forall|p: int| 0 <= p < n ==> #[trigger] sorted[p].1 < slice,
            forall|p: int|
                0 <= p < sorted.len() ==> #[trigger] sorted[p].2 > 0 && sorted[p].1 < 32 && sorted[p].3.0 < 32
                    && sorted[p].4.1.0 < u8::MAX && sorted[p].4.1.1 < u8::MAX
                    && (neighbour_dir is Some ==> sorted[p].1 == sorted[p].3.0),
            border_edges_sound(sorted, out@, end, neighbour_dir),
            border_edges_complete(sorted, out@, n, neighbour_dir),
            forall|a: int, b: int|
                0 <= a < i && a < b < len && working@[b].start_slice == slice && #[trigger] border_linked(
                    sorted,
                    working@[a].pos@,
                    working@[b].pos@,
                    neighbour_dir,
                ) ==> exists|e: int|
                    0 <= e < out@.len() && #[trigger] out@[e] == border_edge_of(
                        sorted,
                        working@[a].pos@,
                        working@[b].pos@,
                        neighbour_dir,
                    ),
        decreases len - i,
    {
        let a = &working[i];
        let mut j: usize = i + 1;
        while j < len
            invariant
                0 <= n <= end <= sorted.len(),
                neighbour_dir matches Some(d) ==> d.aligned(),
                vertical == neighbour_dir is None,
                len == working@.len(),
                i < len,
                i + 1 <= j <= len,
                a == working@[i as int],
                border_working_ok(sorted, working@, end, slice as int),
                forall|q: int| n <= q < end ==> #[trigger] sorted[q].1 == slice,
                forall|p: int| 0 <= p < n ==> #[trigger] sorted[p].1 < slice,
                forall|p: int|
                    0 <= p < sorted.len() ==> #[trigger] sorted[p].2 > 0 && sorted[p].1 < 32 && sorted[p].3.0 < 32
                        && sorted[p].4.1.0 < u8::MAX && sorted[p].4.1.1 < u8::MAX
                        && (neighbour_dir is Some ==> sorted[p].1 == sorted[p].3.0),
                border_edges_sound(sorted, out@, end, neighbour_dir),
                border_edges_complete(sorted, out@, n, neighbour_dir),
                forall|a2: int, b: int|
                    ((0 <= a2 < i && a2 < b < len) || (a2 == i && i < b < j))
                        && working@[b].start_slice == slice && #[trigger] border_linked(
                        sorted,
                        working@[a2].pos@,
                        working@[b].pos@,
                        neighbour_dir,
                    ) ==> exists|e: int|
                        0 <= e < out@.len() && #[trigger] out@[e] == border_edge_of(
                            sorted,
                            working@[a2].pos@,
                            working@[b].pos@,
                            neighbour_dir,
                        ),
            decreases len - j,
        {
            let b = &working[j];
            let ghost pi = a.pos@;
            let ghost pj = b.pos@;
            proof {
                assert(border_in_progress_ok(sorted, working@[i as int], slice as int));
                assert(border_in_progress_ok(sorted, working@[j as int], slice as int));
                assert(working@[i as int].pos@ < working@[j as int].pos@);
                assert(sorted[pi].2 > 0);
                assert(sorted[pj].2 > 0);
            }
            // skip all considered so far and this one itself, and any out of reach
            if b.this_slab != a.this_slab && b.start_slice == slice {
                let touching = match neighbour_dir {
                    Some(dir) => border_areas_touch(a.range, b.range, dir),
                    None => areas_touch(a.range, b.range),
                };
                if touching {
                    let clearance = if a.height_left < b.height_left {
                        a.height_left
                    } else {
                        b.height_left
                    };
                    let diff = if vertical {
                        (b.start_slice + 32) - a.area.0 + 1
                    } else {
                        b.area.0 - a.area.0
                    };
                    let edge = SlabNavEdge { clearance, height_diff: diff };
                    let src = SlabArea { slice_idx: a.area.0, slice_area: SliceAreaIndex(a.area.1) };
                    let dst = SlabArea { slice_idx: b.area.0, slice_area: SliceAreaIndex(b.area.1) };
                    // src must be from this slab to neighbour
                    let found = if a.this_slab {
                        (src, dst, edge)
                    } else {
                        (dst, src, edge)
                    };
                    let ghost before = out@;
                    proof {
                        assert(border_linked(sorted, pi, pj, neighbour_dir));
                        assert(found == border_edge_of(sorted, pi, pj, neighbour_dir));
                    }
                    out.push(found);
                    proof {
                        assert forall|e: int| 0 <= e < out@.len() implies is_border_linked_edge(sorted, #[trigger] out@[e], end, neighbour_dir) by {
                            if e < before.len() {
                                assert(out@[e] == before[e]);
                            } else {
                                assert(border_linked(sorted, pi, pj, neighbour_dir) && pj < end);
                            }
                        }
                        assert forall|a2: int, b2: int|
                            ((0 <= a2 < i && a2 < b2 < len) || (a2 == i && i < b2 < j + 1))
                                && working@[b2].start_slice == slice && #[trigger] border_linked(
                                sorted,
                                working@[a2].pos@,
                                working@[b2].pos@,
                                neighbour_dir,
                            ) implies exists|e: int|
                                0 <= e < out@.len() && #[trigger] out@[e] == border_edge_of(
                                    sorted,
                                    working@[a2].pos@,
                                    working@[b2].pos@,
                                    neighbour_dir,
                                ) by {
                            if a2 == i && b2 == j {
                                assert(out@[before.len() as int] == border_edge_of(sorted, pi, pj, neighbour_dir));
                            } else {
                                let e = choose|e: int|
                                    0 <= e < before.len() && #[trigger] before[e] == border_edge_of(
                                        sorted,
                                        working@[a2].pos@,
                                        working@[b2].pos@,
                                        neighbour_dir,
                                    );
                                assert(out@[e] == before[e]);
                            }
                        }
                        assert forall|i2: int, j2: int|
                            #[trigger] border_linked(sorted, i2, j2, neighbour_dir) && j2 < n implies exists|e: int|
                                0 <= e < out@.len() && #[trigger] out@[e] == border_edge_of(sorted, i2, j2, neighbour_dir) by {
                            let e = choose|e: int|
                                0 <= e < before.len() && #[trigger] before[e] == border_edge_of(sorted, i2, j2, neighbour_dir);
                            assert(out@[e] == before[e]);
                        }
                    }
                }
            }
            j = j + 1;
        }
        i = i + 1;
    }
    proof {
        lemma_border_complete(sorted, working@, slice, n, end, out@, neighbour_dir);
    }
}

/// No two areas share a slice and an index in it.
pub open spec fn no_dupes_spec(input: Seq<(SliceNavArea, SliceAreaIndex)>) -> bool {
    forall|i: int, j: int|
        0 <= i < j < input.len() ==> !(#[trigger] input[i].0.slice == #[trigger] input[j].0.slice
            && input[i].1 == input[j].1)
}

/// The areas of both sides of a border as linking sorts them: by the slice their space starts
/// at, those of this slab before the neighbour's, each side's in its order.
pub open spec fn sorted_border_entries(
    this_areas: Seq<(SliceNavArea, SliceAreaIndex)>,
    neighbour_areas: Seq<(SliceNavArea, SliceAreaIndex)>,
    vertical: bool,
) -> Seq<BorderEntry> {
    by_start(border_entries(this_areas, neighbour_areas, vertical), 256)
}

/// The edges between the areas of this slab and those of a neighbour that all touch the
/// border between them: each pair of areas from either side whose ranges touch (along the
/// border, or anywhere when the neighbour is directly above) and where the space of the one
/// that starts lower reaches the start of the other, as [border_edge_of] gives it, directed
/// from this slab to the neighbour; and no other edges.
/// Edge direction is from this to the other slab, or None if directly above
pub fn discover_border_edges(
    this_areas: &[(SliceNavArea, SliceAreaIndex)],
    neighbour_areas: &[(SliceNavArea, SliceAreaIndex)],
    neighbour_dir: Option<NeighbourOffset>,
) -> (r: Vec<(SlabArea, SlabArea, SlabNavEdge)>)
    requires
        neighbour_dir matches Some(d) ==> d.aligned(),
        no_dupes_spec(this_areas@),
        no_dupes_spec(neighbour_areas@),
        border_input_ok(this_areas@, true, neighbour_dir is None),
        border_input_ok(neighbour_areas@, false, neighbour_dir is None),
    ensures
        border_edges_sound(
            sorted_border_entries(this_areas@, neighbour_areas@, neighbour_dir is None),
            r@,
            sorted_border_entries(this_areas@, neighbour_areas@, neighbour_dir is None).len() as int,
            neighbour_dir,
        ),
        border_edges_complete(
            sorted_border_entries(this_areas@, neighbour_areas@, neighbour_dir is None),
            r@,
            sorted_border_entries(this_areas@, neighbour_areas@, neighbour_dir is None).len() as int,
            neighbour_dir,
        ),
{
    let vertical = neighbour_dir.is_none();
    let ghost entries_spec = border_entries(this_areas@, neighbour_areas@, vertical);
    let mut entries: Vec<BorderEntry> = Vec::new();
    let mut c: usize = 0;
    while c < this_areas.len()
        invariant
            c <= this_areas@.len(),
            vertical == neighbour_dir is None,
            border_input_ok(this_areas@, true, vertical),
            entries@ == this_areas@.subrange(0, c as int).map_values(
                |a: (SliceNavArea, SliceAreaIndex)| border_entry(a, true, vertical),
            ),
        decreases this_areas@.len() - c,
    {
        proof {
            let a = this_areas@[c as int].0;
            assert(a.slice < 32);
        }
        let e = new_border_entry(&this_areas[c], true, vertical);
        entries.push(e);
        proof {
            assert(this_areas@.subrange(0, c + 1) =~= this_areas@.subrange(0, c as int).push(this_areas@[c as int]));
        }
        c = c + 1;
    }
    let ghost this_part = entries@;
    proof {
        assert(this_areas@.subrange(0, this_areas@.len() as int) =~= this_areas@);
    }
    let mut c: usize = 0;
    while c < neighbour_areas.len()
        invariant
            c <= neighbour_areas@.len(),
            vertical == neighbour_dir is None,
            border_input_ok(neighbour_areas@, false, vertical),
            entries@ == this_part + neighbour_areas@.subrange(0, c as int).map_values(
                |a: (SliceNavArea, SliceAreaIndex)| border_entry(a, false, vertical),
            ),
        decreases neighbour_areas@.len() - c,
    {
        proof {
            let a = neighbour_areas@[c as int].0;
            assert(a.slice < 32);
        }
        let e = new_border_entry(&neighbour_areas[c], false, vertical);
        entries.push(e);
        proof {
            assert(neighbour_areas@.subrange(0, c + 1) =~= neighbour_areas@.subrange(0, c as int).push(neighbour_areas@[c as int]));
        }
        c = c + 1;
    }
    proof {
        assert(neighbour_areas@.subrange(0, neighbour_areas@.len() as int) =~= neighbour_areas@);
        assert(entries@ =~= entries_spec);
    }
    let ghost sorted = by_start(entries@, 256);
    proof {
        lemma_border_entries_ok(this_areas@, neighbour_areas@, neighbour_dir);
        lemma_by_start_members(entries@, 256);
    }
    let mut out: Vec<(SlabArea, SlabArea, SlabNavEdge)> = Vec::new();
    let mut working: Vec<BorderInProgress> = Vec::new();
    let mut last_slice_idx: u8 = 0;
    let mut s: u16 = 0;
    while s < 256
        invariant
            neighbour_dir matches Some(d) ==> d.aligned(),
            vertical == neighbour_dir is None,
            entries@ == entries_spec,
            sorted == by_start(entries@, 256),
            forall|p: int|
                0 <= p < sorted.len() ==> #[trigger] sorted[p].2 > 0 && sorted[p].1 < 32 && sorted[p].3.0 < 32
                    && sorted[p].4.1.0 < u8::MAX && sorted[p].4.1.1 < u8::MAX
                    && (neighbour_dir is Some ==> sorted[p].1 == sorted[p].3.0),
            s <= 256,
            last_slice_idx <= s,
            forall|p: int| 0 <= p < by_start(entries@, s as int).len() ==> #[trigger] sorted[p].1 <= last_slice_idx,
            by_start(entries@, s as int).len() <= sorted.len(),
            border_working_ok(sorted, working@, by_start(entries@, s as int).len() as int, last_slice_idx as int),
            border_edges_sound(sorted, out@, by_start(entries@, s as int).len() as int, neighbour_dir),
            border_edges_complete(sorted, out@, by_start(entries@, s as int).len() as int, neighbour_dir),
        decreases 256 - s,
    {
        let ghost n = by_start(entries@, s as int).len() as int;
        proof {
            lemma_by_start_prefix(entries@, s as int, s + 1);
            lemma_by_start_prefix(entries@, s + 1, 256);
            lemma_bucket_start(entries@, s as int, entries@.len() as int);
        }
        // the areas whose space starts at this slice, in order
        let mut group: Vec<BorderEntry> = Vec::new();
        let mut c: usize = 0;
        while c < entries.len()
            invariant
                c <= entries@.len(),
                s < 256,
                group@ == bucket(entries@, s as int, c as int),
            decreases entries@.len() - c,
        {
            if entries[c].1 as u16 == s {
                group.push(entries[c]);
            }
            c = c + 1;
        }
        let ghost end = n + group@.len();
        proof {
            let next = by_start(entries@, s + 1);
            assert(next == by_start(entries@, s as int) + group@);
            assert(next.len() == end);
            assert forall|g: int| 0 <= g < group@.len() implies #[trigger] sorted[n + g] == group@[g] by {
                assert(next[n + g] == group@[g]);
                assert(sorted[n + g] == next[n + g]);
            }
            assert forall|p: int| 0 <= p < n implies #[trigger] sorted[p].1 < s by {
                assert(sorted[p] == by_start(entries@, s as int)[p]);
            }
        }
        if group.len() > 0 {
            let slice = s as u8;
            // decay prev slice (nonsense on first iter but working is empty)
            let decay = slice - last_slice_idx;
            let decayed = decay_border(working, decay, Ghost(sorted), Ghost(n), Ghost(last_slice_idx as int));
            working = decayed;
            last_slice_idx = slice;
            // apply new areas
            let mut g: usize = 0;
            while g < group.len()
                invariant
                    0 <= n <= n + g <= end <= sorted.len(),
                    end == n + group@.len(),
                    slice == s,
                    s < 256,
                    forall|g2: int| 0 <= g2 < group@.len() ==> #[trigger] sorted[n + g2] == group@[g2],
                    forall|g2: int| 0 <= g2 < group@.len() ==> #[trigger] group@[g2].1 == s,
                    forall|p: int|
                        0 <= p < sorted.len() ==> #[trigger] sorted[p].2 > 0 && sorted[p].1 < 32,
                    border_working_ok(sorted, working@, n + g, slice as int),
                decreases group@.len() - g,
            {
                let e = group[g];
                let ghost before = working@;
                working.push(BorderInProgress {
                    this_slab: e.0,
                    height_left: e.2,
                    area: e.3,
                    range: e.4,
                    start_slice: e.1,
                    pos: Ghost(n + g),
                });
                proof {
                    assert(sorted[n + g] == e);
                    assert(sorted[n + g].2 > 0);
                    assert(border_in_progress_ok(sorted, working@[before.len() as int], slice as int));
                    assert forall|w: int| 0 <= w < working@.len() implies border_in_progress_ok(
                        sorted,
                        #[trigger] working@[w],
                        slice as int,
                    ) && working@[w].pos@ < n + g + 1 by {
                        if w < before.len() {
                            assert(working@[w] == before[w]);
                        }
                    }
                    assert forall|a: int, b: int|
                        0 <= a < b < working@.len() implies #[trigger] working@[a].pos@ < #[trigger] working@[b].pos@ by {
                        if b < before.len() {
                            assert(working@[a] == before[a]);
                            assert(working@[b] == before[b]);
                        } else {
                            assert(working@[a] == before[a]);
                        }
                    }
                    assert forall|p: int|
                        0 <= p < n + g + 1 && #[trigger] border_alive(sorted[p], slice as int) implies exists|w: int|
                            0 <= w < working@.len() && #[trigger] working@[w].pos@ == p by {
                        if p < n + g {
                            let w = choose|w: int| 0 <= w < before.len() && #[trigger] before[w].pos@ == p;
                            assert(working@[w] == before[w]);
                        } else {
                            assert(working@[before.len() as int].pos@ == p);
                        }
                    }
                }
                g = g + 1;
            }
            // link up
            link_border(&working, slice, neighbour_dir, &mut out, Ghost(sorted), Ghost(n), Ghost(end));
            proof {
                assert forall|p: int| 0 <= p < end implies #[trigger] sorted[p].1 <= last_slice_idx by {
                    if p >= n {
                        assert(sorted[p] == group@[p - n]);
                    }
                }
            }
        } else {
            proof {
                assert(end == n);
            }
        }
        s = s + 1;
    }
    proof {
        assert(by_start(entries@, 256).len() == sorted.len());
    }
    out
}

/// Every sorted entry is an entry, and every entry's start is below the top of the slab.
proof fn lemma_by_start_members(entries: Seq<BorderEntry>, s: int)
    requires
        0 <= s,
    ensures
        forall|p: int| 0 <= p < by_start(entries, s).len() ==> exists|q: int|
            0 <= q < entries.len() && #[trigger] by_start(entries, s)[p] == entries[q],
    decreases s,
{
    if s > 0 {
        lemma_by_start_members(entries, s - 1);
        lemma_bucket_members(entries, s - 1, entries.len() as int);
        let prev = by_start(entries, s - 1);
        let b = bucket(entries, s - 1, entries.len() as int);
        assert forall|p: int| 0 <= p < by_start(entries, s).len() implies exists|q: int|
            0 <= q < entries.len() && #[trigger] by_start(entries, s)[p] == entries[q] by {
            if p < prev.len() {
                assert(by_start(entries, s)[p] == prev[p]);
            } else {
                assert(by_start(entries, s)[p] == b[p - prev.len()]);
            }
        }
    }
}

/// Every entry of a bucket is an entry.
proof fn lemma_bucket_members(entries: Seq<BorderEntry>, s: int, n: int)
    requires
        0 <= n <= entries.len(),
    ensures
        forall|g: int| 0 <= g < bucket(entries, s, n).len() ==> exists|q: int|
            0 <= q < entries.len() && #[trigger] bucket(entries, s, n)[g] == entries[q],
    decreases n,
{
    if n > 0 {
        lemma_bucket_members(entries, s, n - 1);
        let prev = bucket(entries, s, n - 1);
        assert forall|g: int| 0 <= g < bucket(entries, s, n).len() implies exists|q: int|
            0 <= q < entries.len() && #[trigger] bucket(entries, s, n)[g] == entries[q] by {
            if g < prev.len() {
                assert(bucket(entries, s, n)[g] == prev[g]);
            } else {
                assert(bucket(entries, s, n)[g] == entries[n - 1]);
            }
        }
    }
}

/// The entries of well-formed areas have free space, start in the slab, and lie in the
/// coordinate limits; away from vertical linking each starts at its own slice.
proof fn lemma_border_entries_ok(
    this_areas: Seq<(SliceNavArea, SliceAreaIndex)>,
    neighbour_areas: Seq<(SliceNavArea, SliceAreaIndex)>,
    neighbour_dir: Option<NeighbourOffset>,
)
    requires
        border_input_ok(this_areas, true, neighbour_dir is None),
        border_input_ok(neighbour_areas, false, neighbour_dir is None),
    ensures
        forall|q: int|
            0 <= q < border_entries(this_areas, neighbour_areas, neighbour_dir is None).len() ==> {
                let e = #[trigger] border_entries(this_areas, neighbour_areas, neighbour_dir is None)[q];
                &&& e.2 > 0 && e.1 < 32 && e.3.0 < 32
                &&& e.4.1.0 < u8::MAX && e.4.1.1 < u8::MAX
                &&& (neighbour_dir is Some ==> e.1 == e.3.0)
            },
{
    let vertical = neighbour_dir is None;
    let entries = border_entries(this_areas, neighbour_areas, vertical);
    assert forall|q: int| 0 <= q < entries.len() implies {
        let e = #[trigger] entries[q];
        &&& e.2 > 0 && e.1 < 32 && e.3.0 < 32
        &&& e.4.1.0 < u8::MAX && e.4.1.1 < u8::MAX
        &&& (neighbour_dir is Some ==> e.1 == e.3.0)
    } by {
        if q < this_areas.len() {
            let a = this_areas[q].0;
            assert(a.slice < 32);
            if vertical {
                assert(32 <= a.slice + a.height <= u8::MAX && (a.slice + a.height) % 32 != 0);
            }
        } else {
            let a = neighbour_areas[q - this_areas.len()].0;
            assert(a.slice < 32);
        }
    }
}

/// Someone can pass every edge found across a border.
pub proof fn lemma_border_edges_passable(
    this_areas: Seq<(SliceNavArea, SliceAreaIndex)>,
    neighbour_areas: Seq<(SliceNavArea, SliceAreaIndex)>,
    neighbour_dir: Option<NeighbourOffset>,
    edges: Seq<(SlabArea, SlabArea, SlabNavEdge)>,
)
    requires
        border_input_ok(this_areas, true, neighbour_dir is None),
        border_input_ok(neighbour_areas, false, neighbour_dir is None),
        border_edges_sound(
            sorted_border_entries(this_areas, neighbour_areas, neighbour_dir is None),
            edges,
            sorted_border_entries(this_areas, neighbour_areas, neighbour_dir is None).len() as int,
            neighbour_dir,
        ),
    ensures
        forall|e: int| 0 <= e < edges.len() ==> (#[trigger] edges[e]).2.wf(),
{
    let entries = border_entries(this_areas, neighbour_areas, neighbour_dir is None);
    let sorted = by_start(entries, 256);
    lemma_border_entries_ok(this_areas, neighbour_areas, neighbour_dir);
    lemma_by_start_members(entries, 256);
    assert forall|e: int| 0 <= e < edges.len() implies (#[trigger] edges[e]).2.wf() by {
        assert(is_border_linked_edge(sorted, edges[e], sorted.len() as int, neighbour_dir));
        let (i, j) = choose|i: int, j: int|
            #![trigger border_edge_of(sorted, i, j, neighbour_dir)]
            border_linked(sorted, i, j, neighbour_dir) && j < sorted.len() && edges[e] == border_edge_of(
                sorted,
                i,
                j,
                neighbour_dir,
            );
        let qi = choose|q: int| 0 <= q < entries.len() && #[trigger] sorted[i] == entries[q];
        let qj = choose|q: int| 0 <= q < entries.len() && #[trigger] sorted[j] == entries[q];
        assert(entries[qi].2 > 0);
        assert(entries[qj].2 > 0);
    }
}


/// `v` lies between `lo` and `hi`, both included.
pub open spec fn within(lo: int, v: int, hi: int) -> bool {
    lo <= v <= hi
}

/// Along an east or west border two areas touch exactly when some row lies in both of their
/// ranges; along a north or south border, some column. Which of the two is this chunk's does
/// not matter: swapping them and turning the direction round gives the same answer.
pub proof fn lemma_border_areas_touch_overlap(a: AreaRange, b: AreaRange, dir: NeighbourOffset)
    requires
        dir.aligned(),
        a.0.0 <= a.1.0 && a.0.1 <= a.1.1,
        b.0.0 <= b.1.0 && b.0.1 <= b.1.1,
    ensures
        (dir is East || dir is West) ==> (border_areas_touch_spec(a, b, dir) <==> exists|y: int|
            #[trigger] within(a.0.1 as int, y, a.1.1 as int) && within(b.0.1 as int, y, b.1.1 as int)),
        (dir is North || dir is South) ==> (border_areas_touch_spec(a, b, dir) <==> exists|x: int|
            #[trigger] within(a.0.0 as int, x, a.1.0 as int) && within(b.0.0 as int, x, b.1.0 as int)),
        border_areas_touch_spec(a, b, dir) == border_areas_touch_spec(b, a, dir.opposite_spec()),
{
    let y = if a.0.1 > b.0.1 { a.0.1 as int } else { b.0.1 as int };
    let x = if a.0.0 > b.0.0 { a.0.0 as int } else { b.0.0 as int };
    if dir is East || dir is West {
        if border_areas_touch_spec(a, b, dir) {
            assert(within(a.0.1 as int, y, a.1.1 as int) && within(b.0.1 as int, y, b.1.1 as int));
        }
    } else {
        if border_areas_touch_spec(a, b, dir) {
            assert(within(a.0.0 as int, x, a.1.0 as int) && within(b.0.0 as int, x, b.1.0 as int));
        }
    }
}

/// An area is a top area exactly when its free space reaches past the slab's top slice: one
/// of the slices its height spans, counted up from its own, is beyond slice 31.
pub proof fn lemma_top_area_reaches_above(a: SliceNavArea)
    requires
        a.slice < 32,
    ensures
        is_top_area_spec(a) <==> exists|k: int| #[trigger] within(0, k, a.height - 1) && a.slice + k >= 32,
{
    if is_top_area_spec(a) {
        let k = a.height - 1;
        assert(within(0, k, a.height - 1) && a.slice + k >= 32);
    }
}


/// Blocks `p` and `q` are the same or side by side, not diagonal.
pub open spec fn blocks_adjacent(p: (int, int), q: (int, int)) -> bool {
    let dx = if p.0 >= q.0 { p.0 - q.0 } else { q.0 - p.0 };
    let dy = if p.1 >= q.1 { p.1 - q.1 } else { q.1 - p.1 };
    dx + dy <= 1
}

/// The block lies in the range.
pub open spec fn in_area_range(r: AreaRange, p: (int, int)) -> bool {
    within(r.0.0 as int, p.0, r.1.0 as int) && within(r.0.1 as int, p.1, r.1.1 as int)
}

/// Two areas of a slice touch exactly when a block of one is the same as, or beside (not
/// diagonal to), a block of the other; so touching does not depend on the order of the two.
pub proof fn lemma_areas_touch_adjacent(a: AreaRange, b: AreaRange)
    requires
        a.0.0 <= a.1.0 && a.0.1 <= a.1.1,
        b.0.0 <= b.1.0 && b.0.1 <= b.1.1,
    ensures
        areas_touch_spec(a, b) <==> exists|p: (int, int), q: (int, int)|
            #[trigger] in_area_range(a, p) && #[trigger] in_area_range(b, q) && blocks_adjacent(p, q),
        areas_touch_spec(a, b) == areas_touch_spec(b, a),
{
    let (ax0, ay0, ax1, ay1) = (a.0.0 as int, a.0.1 as int, a.1.0 as int, a.1.1 as int);
    let (bx0, by0, bx1, by1) = (b.0.0 as int, b.0.1 as int, b.1.0 as int, b.1.1 as int);
    // the closest coordinates of the two ranges on each axis
    let px = if bx0 > ax1 { ax1 } else if bx1 < ax0 { ax0 } else if ax0 > bx0 { ax0 } else { bx0 };
    let qx = if bx0 > ax1 { bx0 } else if bx1 < ax0 { bx1 } else { px };
    let py = if by0 > ay1 { ay1 } else if by1 < ay0 { ay0 } else if ay0 > by0 { ay0 } else { by0 };
    let qy = if by0 > ay1 { by0 } else if by1 < ay0 { by1 } else { py };
    if areas_touch_spec(a, b) {
        assert(in_area_range(a, (px, py)) && in_area_range(b, (qx, qy)) && blocks_adjacent((px, py), (qx, qy)));
    }
    if exists|p: (int, int), q: (int, int)|
        #[trigger] in_area_range(a, p) && #[trigger] in_area_range(b, q) && blocks_adjacent(p, q) {
        let (p, q) = choose|p: (int, int), q: (int, int)|
            #[trigger] in_area_range(a, p) && #[trigger] in_area_range(b, q) && blocks_adjacent(p, q);
        assert(areas_touch_spec(a, b));
    }
}


/// A range inside a chunk is at its border in an axis direction exactly when one of its blocks
/// has its neighbour in that direction outside the chunk.
pub proof fn lemma_border_means_leaving_chunk(direction: NeighbourOffset, r: AreaRange)
    requires
        direction.aligned(),
        r.0.0 <= r.1.0 < 16,
        r.0.1 <= r.1.1 < 16,
    ensures
        is_border_spec(direction, r) <==> exists|p: (int, int)|
            #[trigger] in_area_range(r, p) && !(within(0, p.0 + direction.offset_spec().0, 15) && within(
                0,
                p.1 + direction.offset_spec().1,
                15,
            )),
{
    let p = match direction {
        NeighbourOffset::South => (r.0.0 as int, r.0.1 as int),
        NeighbourOffset::West => (r.0.0 as int, r.0.1 as int),
        _ => (r.1.0 as int, r.1.1 as int),
    };
    if is_border_spec(direction, r) {
        assert(in_area_range(r, p));
    }
    if exists|q: (int, int)|
        #[trigger] in_area_range(r, q) && !(within(0, q.0 + direction.offset_spec().0, 15) && within(
            0,
            q.1 + direction.offset_spec().1,
            15,
        )) {
        let q = choose|q: (int, int)|
            #[trigger] in_area_range(r, q) && !(within(0, q.0 + direction.offset_spec().0, 15) && within(
                0,
                q.1 + direction.offset_spec().1,
                15,
            ));
        assert(is_border_spec(direction, r));
    }
}


/// Starting the search for top areas at [MIN_TOP_SLICE] leaves none out: an area whose free
/// space is no more than the most that is recorded and reaches past the slab's top starts at
/// or above that slice.
pub proof fn lemma_top_areas_start_high(a: SliceNavArea)
    requires
        a.height <= ABSOLUTE_MAX_FREE_VERTICAL_SPACE,
        is_top_area_spec(a),
    ensures
        a.slice >= MIN_TOP_SLICE,
{
}

} // verus!
