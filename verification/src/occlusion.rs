use vstd::prelude::*;

use crate::coordinate::dim::CHUNK_SIZE_I32;
use crate::coordinate::world::{BlockCoord, SliceBlock};
use crate::navigationv2::{neighbour_of_ordinal, NeighbourOffset};
use crate::slab::SlabPosition;

verus! {

#[derive(Copy, Clone, Debug, Eq, PartialEq, PartialOrd, Ord, Structural)]
pub enum VertexOcclusion {
    /// Darkest
    Full,
    Mostly,
    Mildly,
    /// No occlusion
    NotAtAll,
}

/// The darkness rank of a vertex occlusion, darkest first.
pub open spec fn vertex_ordinal(v: VertexOcclusion) -> u8 {
    match v {
        VertexOcclusion::Full => 0,
        VertexOcclusion::Mostly => 1,
        VertexOcclusion::Mildly => 2,
        VertexOcclusion::NotAtAll => 3,
    }
}

impl VertexOcclusion {
    /// The darkness rank, darkest first.
    pub fn ordinal(self) -> (r: u8)
        ensures
            r == vertex_ordinal(self),
    {
        match self {
            VertexOcclusion::Full => 0,
            VertexOcclusion::Mostly => 1,
            VertexOcclusion::Mildly => 2,
            VertexOcclusion::NotAtAll => 3,
        }
    }
}

impl Default for VertexOcclusion {
    fn default() -> (r: Self)
        ensures
            r == VertexOcclusion::NotAtAll,
    {
        VertexOcclusion::NotAtAll
    }
}

impl core::ops::Add<VertexOcclusion> for VertexOcclusion {
    type Output = u8;

    fn add(self, rhs: VertexOcclusion) -> (r: u8) {
        self.ordinal() + rhs.ordinal()
    }
}

impl vstd::std_specs::ops::AddSpecImpl<VertexOcclusion> for VertexOcclusion {
    open spec fn obeys_add_spec() -> bool {
        true
    }

    open spec fn add_req(self, rhs: VertexOcclusion) -> bool {
        true
    }

    open spec fn add_spec(self, rhs: VertexOcclusion) -> u8 {
        (vertex_ordinal(self) + vertex_ordinal(rhs)) as u8
    }
}

/// If a quad should be flipped for nicer AO
#[derive(Debug, Copy, Clone, PartialEq, Eq, Structural)]
pub enum OcclusionFlip {
    Flip,
    DontFlip,
}

#[derive(Debug, Copy, Clone, PartialEq, Eq, Structural)]
pub enum BlockOpacity {
    Transparent,
    Solid,
}

impl BlockOpacity {
    pub fn solid(self) -> (r: bool)
        ensures
            r == (self == BlockOpacity::Solid),
    {
        matches!(self, BlockOpacity::Solid)
    }

    pub fn transparent(self) -> (r: bool)
        ensures
            r == (self == BlockOpacity::Transparent),
    {
        matches!(self, BlockOpacity::Transparent)
    }
}

/// The number of neighbours around a block face.
pub const NEIGHBOUR_COUNT: usize = 8;

/// Holds opacity of 8 surrounding neighbours
#[derive(Copy, Clone)]
pub struct NeighbourOpacity(pub [BlockOpacity; 8]);

impl NeighbourOpacity {
    pub fn default_const() -> (r: Self)
        ensures
            forall|i: int| 0 <= i < 8 ==> r.0[i] == BlockOpacity::Transparent,
    {
        Self::all_transparent()
    }

    pub fn is_all_transparent(&self) -> (r: bool)
        ensures
            r == forall|i: int| 0 <= i < 8 ==> #[trigger] self.0[i] == BlockOpacity::Transparent,
    {
        let mut i: usize = 0;
        while i < NEIGHBOUR_COUNT
            invariant
                i <= 8,
                forall|j: int| 0 <= j < i ==> #[trigger] self.0[j] == BlockOpacity::Transparent,
            decreases 8 - i,
        {
            if !self.0[i].transparent() {
                return false;
            }
            i = i + 1;
        }
        true
    }

    pub fn is_all_solid(&self) -> (r: bool)
        ensures
            r == forall|i: int| 0 <= i < 8 ==> #[trigger] self.0[i] == BlockOpacity::Solid,
    {
        let mut i: usize = 0;
        while i < NEIGHBOUR_COUNT
            invariant
                i <= 8,
                forall|j: int| 0 <= j < i ==> #[trigger] self.0[j] == BlockOpacity::Solid,
            decreases 8 - i,
        {
            if !self.0[i].solid() {
                return false;
            }
            i = i + 1;
        }
        true
    }

    pub fn all_solid() -> (r: Self)
        ensures
            forall|i: int| 0 <= i < 8 ==> r.0[i] == BlockOpacity::Solid,
    {
        Self([BlockOpacity::Solid; 8])
    }

    pub fn all_transparent() -> (r: Self)
        ensures
            forall|i: int| 0 <= i < 8 ==> r.0[i] == BlockOpacity::Transparent,
    {
        Self([BlockOpacity::Transparent; 8])
    }
}

impl Default for NeighbourOpacity {
    fn default() -> (r: Self)
        ensures
            forall|i: int| 0 <= i < 8 ==> r.0[i] == BlockOpacity::Transparent,
    {
        NeighbourOpacity::default_const()
    }
}

#[derive(Debug, Copy, Clone, PartialEq, Eq, Structural)]
pub enum OcclusionFace {
    Top,
    /// +Y
    North,
    /// +X
    East,
    /// -Y
    South,
    /// -X
    West,
    // dont ever see bottom
}

/// The number of faces of a block that can be seen.
pub const OCCLUSION_FACE_COUNT: usize = 5;

/// The position of a face in declaration order.
pub open spec fn face_ordinal(f: OcclusionFace) -> int {
    match f {
        OcclusionFace::Top => 0,
        OcclusionFace::North => 1,
        OcclusionFace::East => 2,
        OcclusionFace::South => 3,
        OcclusionFace::West => 4,
    }
}

/// The step from a block across a face, on the x and y axes.
pub open spec fn xy_delta_spec(f: OcclusionFace) -> (int, int) {
    match f {
        OcclusionFace::Top => (0, 0),
        OcclusionFace::North => (0, 1),
        OcclusionFace::East => (1, 0),
        OcclusionFace::South => (0, -1),
        OcclusionFace::West => (-1, 0),
    }
}

/// The step from a block across a face, on the x, y and z axes.
pub open spec fn offset_spec(f: OcclusionFace) -> (int, int, int) {
    match f {
        OcclusionFace::Top => (0, 0, 1),
        OcclusionFace::North => (0, 1, 0),
        OcclusionFace::East => (1, 0, 0),
        OcclusionFace::South => (0, -1, 0),
        OcclusionFace::West => (-1, 0, 0),
    }
}

/// The block moved by the given step stays inside its chunk's slice.
pub open spec fn slice_block_try_add_spec(b: SliceBlock, d: (int, int)) -> Option<SliceBlock> {
    let x = b.0.0 + d.0;
    let y = b.1.0 + d.1;
    if 0 <= x < CHUNK_SIZE_I32 && 0 <= y < CHUNK_SIZE_I32 {
        Some(SliceBlock(BlockCoord(x as u16), BlockCoord(y as u16)))
    } else {
        None
    }
}

impl SliceBlock {
    /// The block moved by the given step, if it stays inside the chunk's slice.
    pub fn try_add(self, delta: (i16, i16)) -> (r: Option<SliceBlock>)
        ensures
            r == slice_block_try_add_spec(self, (delta.0 as int, delta.1 as int)),
    {
        let x = self.0.0 as i32 + delta.0 as i32;
        let y = self.1.0 as i32 + delta.1 as i32;
        if 0 <= x && x < CHUNK_SIZE_I32 && 0 <= y && y < CHUNK_SIZE_I32 {
            Some(SliceBlock(BlockCoord(x as u16), BlockCoord(y as u16)))
        } else {
            None
        }
    }
}

impl OcclusionFace {
    /// Not in same order as ordinal!!!
    pub fn faces() -> (r: [OcclusionFace; 5])
        ensures
            r@ == seq![
                OcclusionFace::South,
                OcclusionFace::West,
                OcclusionFace::East,
                OcclusionFace::Top,
                OcclusionFace::North,
            ],
    {
        [
            OcclusionFace::South,
            OcclusionFace::West,
            OcclusionFace::East,
            OcclusionFace::Top,
            OcclusionFace::North,
        ]
    }

    /// The faces at the sides of a block.
    pub fn side_faces() -> (r: [OcclusionFace; 4])
        ensures
            r@ == seq![
                OcclusionFace::North,
                OcclusionFace::East,
                OcclusionFace::South,
                OcclusionFace::West,
            ],
    {
        [OcclusionFace::North, OcclusionFace::East, OcclusionFace::South, OcclusionFace::West]
    }

    /// In same order as ordinal
    pub fn ordinals() -> (r: [OcclusionFace; 5])
        ensures
            forall|i: int| 0 <= i < 5 ==> face_ordinal(#[trigger] r@[i]) == i,
    {
        [
            OcclusionFace::Top,
            OcclusionFace::North,
            OcclusionFace::East,
            OcclusionFace::South,
            OcclusionFace::West,
        ]
    }

    /// The position of this face in declaration order.
    pub fn ordinal(self) -> (r: usize)
        ensures
            r == face_ordinal(self),
    {
        match self {
            OcclusionFace::Top => 0,
            OcclusionFace::North => 1,
            OcclusionFace::East => 2,
            OcclusionFace::South => 3,
            OcclusionFace::West => 4,
        }
    }

    pub fn xy_delta(self) -> (r: (i16, i16))
        ensures
            (r.0 as int, r.1 as int) == xy_delta_spec(self),
    {
        match self {
            OcclusionFace::Top => (0, 0),
            OcclusionFace::North => (0, 1),
            OcclusionFace::East => (1, 0),
            OcclusionFace::South => (0, -1),
            OcclusionFace::West => (-1, 0),
        }
    }

    /// The neighbouring block across this face in the same slice, if it is in the chunk; none
    /// for the top face.
    pub fn extend_sideways(self, pos: SliceBlock) -> (r: Option<SliceBlock>)
        ensures
            r == match self {
                OcclusionFace::Top => None,
                _ => slice_block_try_add_spec(pos, xy_delta_spec(self)),
            },
    {
        match self {
            OcclusionFace::Top => None,
            OcclusionFace::North => pos.try_add((0, 1)),
            OcclusionFace::East => pos.try_add((1, 0)),
            OcclusionFace::South => pos.try_add((0, -1)),
            OcclusionFace::West => pos.try_add((-1, 0)),
        }
    }

    pub fn offset_i32(self) -> (r: (i32, i32, i32))
        ensures
            (r.0 as int, r.1 as int, r.2 as int) == offset_spec(self),
    {
        match self {
            OcclusionFace::Top => (0, 0, 1),
            OcclusionFace::North => (0, 1, 0),
            OcclusionFace::East => (1, 0, 0),
            OcclusionFace::South => (0, -1, 0),
            OcclusionFace::West => (-1, 0, 0),
        }
    }
}

/// The sideways step of each face agrees with its full offset, which for the top face is
/// straight up.
pub proof fn lemma_face_offsets_agree(f: OcclusionFace)
    ensures
        offset_spec(f).0 == xy_delta_spec(f).0,
        offset_spec(f).1 == xy_delta_spec(f).1,
        (f == OcclusionFace::Top) == (offset_spec(f).2 == 1),
        f != OcclusionFace::Top ==> offset_spec(f).2 == 0,
{
}

#[derive(Copy, Clone)]
pub struct BlockOcclusion {
    /// Maps to [OcclusionFace::ordinals]
    neighbours: [NeighbourOpacity; 5],
}

impl View for BlockOcclusion {
    /// The opacity of the neighbours of each face, by face ordinal.
    type V = Seq<NeighbourOpacity>;

    closed spec fn view(&self) -> Seq<NeighbourOpacity> {
        self.neighbours@
    }
}

/// Every neighbour around the face is solid.
pub open spec fn face_all_solid(n: NeighbourOpacity) -> bool {
    forall|i: int| 0 <= i < 8 ==> #[trigger] n.0[i] == BlockOpacity::Solid
}

impl BlockOcclusion {
    pub fn all_transparent() -> (r: Self)
        ensures
            r@.len() == 5,
            forall|f: int, i: int|
                0 <= f < 5 && 0 <= i < 8 ==> #[trigger] r@[f].0[i] == BlockOpacity::Transparent,
    {
        Self { neighbours: [NeighbourOpacity::all_transparent();5] }
    }

    pub fn default_const() -> (r: Self)
        ensures
            r@.len() == 5,
            forall|f: int, i: int|
                0 <= f < 5 && 0 <= i < 8 ==> #[trigger] r@[f].0[i] == BlockOpacity::Transparent,
    {
        Self { neighbours: [NeighbourOpacity::default_const();5] }
    }

    pub fn set_face(&mut self, face: OcclusionFace, neighbours: NeighbourOpacity)
        ensures
            final(self)@ == old(self)@.update(face_ordinal(face), neighbours),
    {
        let i = face.ordinal();
        self.neighbours[i] = neighbours;
    }

    pub fn get_face(&self, face: OcclusionFace) -> (r: NeighbourOpacity)
        ensures
            r == self@[face_ordinal(face)],
    {
        self.neighbours[face.ordinal()]
    }

    /// The faces, in ordinal order, not hidden by solid neighbours all around.
    pub fn visible_faces(&self) -> (r: Vec<OcclusionFace>)
        ensures
            forall|f: OcclusionFace| #[trigger] r@.contains(f) <==> !face_all_solid(self@[face_ordinal(f)]),
            forall|i: int, j: int| 0 <= i < j < r@.len() ==> face_ordinal(#[trigger] r@[i]) < face_ordinal(#[trigger] r@[j]),
    {
        let faces = OcclusionFace::ordinals();
        let mut out: Vec<OcclusionFace> = Vec::new();
        let mut i: usize = 0;
        while i < OCCLUSION_FACE_COUNT
            invariant
                i <= 5,
                self@.len() == 5,
                forall|k: int| 0 <= k < 5 ==> face_ordinal(#[trigger] faces@[k]) == k,
                forall|f: OcclusionFace| #[trigger] out@.contains(f) <==> face_ordinal(f) < i && !face_all_solid(self@[face_ordinal(f)]),
                forall|a: int, b: int| 0 <= a < b < out@.len() ==> face_ordinal(#[trigger] out@[a]) < face_ordinal(#[trigger] out@[b]),
                forall|a: int| 0 <= a < out@.len() ==> face_ordinal(#[trigger] out@[a]) < i,
            decreases 5 - i,
        {
            let face = faces[i];
            let ghost old_out = out@;
            if !self.neighbours[i].is_all_solid() {
                out.push(face);
                proof {
                    assert forall|f: OcclusionFace| #[trigger] out@.contains(f) <==> face_ordinal(f) < i + 1 && !face_all_solid(self@[face_ordinal(f)]) by {
                        if face_ordinal(f) == i {
                            assert(f == face);
                            assert(out@[out@.len() - 1] == f);
                        }
                        if out@.contains(f) && f != face {
                            let j = choose|j: int| 0 <= j < out@.len() && out@[j] == f;
                            assert(old_out.contains(f)) by {
                                assert(old_out[j] == f);
                            }
                        }
                        if old_out.contains(f) {
                            let j = choose|j: int| 0 <= j < old_out.len() && old_out[j] == f;
                            assert(out@[j] == f);
                        }
                    }
                }
            } else {
                proof {
                    assert forall|f: OcclusionFace| #[trigger] out@.contains(f) <==> face_ordinal(f) < i + 1 && !face_all_solid(self@[face_ordinal(f)]) by {
                        if face_ordinal(f) == i {
                            assert(f == face);
                        }
                    }
                }
            }
            i = i + 1;
        }
        out
    }
}

impl Default for BlockOcclusion {
    fn default() -> (r: Self)
        ensures
            r@.len() == 5,
            forall|f: int, i: int|
                0 <= f < 5 && 0 <= i < 8 ==> #[trigger] r@[f].0[i] == BlockOpacity::Transparent,
    {
        Self::all_transparent()
    }
}

/// An opacity counted as a number: transparent 0, solid 1.
pub open spec fn opacity_value(o: BlockOpacity) -> int {
    match o {
        BlockOpacity::Transparent => 0,
        BlockOpacity::Solid => 1,
    }
}

/// The vertex occlusion of the given darkness rank, darkest first.
pub open spec fn vertex_of_ordinal(n: int) -> VertexOcclusion {
    if n <= 0 {
        VertexOcclusion::Full
    } else if n == 1 {
        VertexOcclusion::Mostly
    } else if n == 2 {
        VertexOcclusion::Mildly
    } else {
        VertexOcclusion::NotAtAll
    }
}

/// The occlusion of a face vertex from the two neighbours beside its corner and the neighbour
/// at the corner: fully dark between two solid sides, else one step darker for each solid
/// neighbour.
pub open spec fn corner_occlusion(
    side1: BlockOpacity,
    side2: BlockOpacity,
    corner: BlockOpacity,
) -> VertexOcclusion {
    if side1 == BlockOpacity::Solid && side2 == BlockOpacity::Solid {
        VertexOcclusion::Full
    } else {
        vertex_of_ordinal(3 - (opacity_value(side1) + opacity_value(side2) + opacity_value(corner)))
    }
}

/// The occlusion of the face vertex at the corner in direction `c`.
pub open spec fn vertex_at(n: NeighbourOpacity, c: NeighbourOffset) -> VertexOcclusion {
    corner_occlusion(
        n.0[(c.ordinal_spec() + 1) % 8],
        n.0[(c.ordinal_spec() + 7) % 8],
        n.0[c.ordinal_spec()],
    )
}

/// The face's vertices, by corner: south-east, north-east, north-west, south-west.
pub open spec fn face_vertices(n: NeighbourOpacity) -> Seq<VertexOcclusion> {
    seq![
        vertex_at(n, NeighbourOffset::SouthEast),
        vertex_at(n, NeighbourOffset::NorthEast),
        vertex_at(n, NeighbourOffset::NorthWest),
        vertex_at(n, NeighbourOffset::SouthWest),
    ]
}

/// The quad is split along the other diagonal when its first and third corners together are
/// darker than its second and fourth.
pub open spec fn flips(v: Seq<VertexOcclusion>) -> bool {
    vertex_ordinal(v[0]) + vertex_ordinal(v[2]) < vertex_ordinal(v[1]) + vertex_ordinal(v[3])
}

/// The occlusion of the vertex at a corner of a face with the given neighbours.
fn corner_vertex(neighbours: NeighbourOpacity, corner_offset: NeighbourOffset) -> (r: VertexOcclusion)
    ensures
        r == vertex_at(neighbours, corner_offset),
{
    let s1 = neighbours.0[corner_offset.next().ordinal()];
    let s2 = neighbours.0[corner_offset.prev().ordinal()];
    if s1.solid() && s2.solid() {
        VertexOcclusion::Full
    } else {
        let corner = neighbours.0[corner_offset.ordinal()];
        let n: u8 = (if s1.solid() { 1u8 } else { 0u8 }) + (if s2.solid() { 1u8 } else { 0u8 }) + (if corner.solid() { 1u8 } else { 0u8 });
        if n == 0 {
            VertexOcclusion::NotAtAll
        } else if n == 1 {
            VertexOcclusion::Mildly
        } else {
            VertexOcclusion::Mostly
        }
    }
}

impl BlockOcclusion {
    /// The occlusion of the face's four vertices, and whether the quad is to be split along its
    /// other diagonal.
    pub fn resolve_vertices(&self, face: OcclusionFace) -> (r: ([VertexOcclusion; 4], OcclusionFlip))
        ensures
            r.0@ == face_vertices(self@[face_ordinal(face)]),
            (r.1 == OcclusionFlip::Flip) == flips(r.0@),
    {
        let neighbours = self.neighbours[face.ordinal()];
        let vertices = [
            corner_vertex(neighbours, NeighbourOffset::SouthEast),
            corner_vertex(neighbours, NeighbourOffset::NorthEast),
            corner_vertex(neighbours, NeighbourOffset::NorthWest),
            corner_vertex(neighbours, NeighbourOffset::SouthWest),
        ];
        let flip = if vertices[0] + vertices[2] < vertices[1] + vertices[3] {
            OcclusionFlip::Flip
        } else {
            OcclusionFlip::DontFlip
        };
        proof {
            assert(vertices@ =~= face_vertices(self@[face_ordinal(face)]));
        }
        (vertices, flip)
    }

    /// The neighbours of the face, to change in place.
    pub fn get_face_mut(&mut self, face: OcclusionFace) -> (r: &mut NeighbourOpacity)
        ensures
            *r == old(self)@[face_ordinal(face)],
            final(self)@ == old(self)@.update(face_ordinal(face), *final(r)),
    {
        &mut self.neighbours[face.ordinal()]
    }

    /// The occlusion of the `i`th vertex of the top face.
    pub fn top_corner(&self, i: usize) -> (r: VertexOcclusion)
        requires
            i < 4,
        ensures
            r == face_vertices(self@[face_ordinal(OcclusionFace::Top)])[i as int],
    {
        let (vertices, _) = self.resolve_vertices(OcclusionFace::Top);
        vertices[i]
    }

    /// The neighbours of each face, with the face, in ordinal order.
    pub fn iter_faces(&self) -> (r: Vec<(NeighbourOpacity, OcclusionFace)>)
        ensures
            r@.len() == 5,
            forall|i: int| 0 <= i < 5 ==> (#[trigger] r@[i]).0 == self@[i] && face_ordinal(r@[i].1) == i,
    {
        let faces = OcclusionFace::ordinals();
        let mut out: Vec<(NeighbourOpacity, OcclusionFace)> = Vec::new();
        let mut i: usize = 0;
        while i < OCCLUSION_FACE_COUNT
            invariant
                i <= 5,
                self@.len() == 5,
                forall|k: int| 0 <= k < 5 ==> face_ordinal(#[trigger] faces@[k]) == k,
                out@.len() == i,
                forall|k: int| 0 <= k < i ==> (#[trigger] out@[k]).0 == self@[k] && face_ordinal(out@[k].1) == k,
            decreases 5 - i,
        {
            out.push((self.neighbours[i], faces[i]));
            i = i + 1;
        }
        out
    }
}

/// A coordinate along one horizontal axis, one block outside the chunk at most, as the chunks
/// crossed (-1, 0 or 1) and the coordinate inside the chunk reached.
pub open spec fn wrap_coord(v: int) -> (int, int) {
    if v < 0 {
        (-1, v + 16)
    } else if v >= 16 {
        (1, v - 16)
    } else {
        (0, v)
    }
}

fn wrap_coord_exec(v: i32) -> (r: (i32, i32))
    requires
        -1 <= v <= 16,
    ensures
        (r.0 as int, r.1 as int) == wrap_coord(v as int),
        0 <= r.1 < 16,
{
    if v < 0 {
        (-1, v + 16)
    } else if v >= 16 {
        (1, v - 16)
    } else {
        (0, v)
    }
}

/// Where a neighbour of a block lies: the offset of its slab from the block's slab, on the x,
/// y and z axes, and its position in that slab.
#[derive(Debug, Copy, Clone, PartialEq, Eq, Structural)]
pub struct NeighbourLookup {
    pub slab_dx: i32,
    pub slab_dy: i32,
    pub slab_dz: i32,
    pub pos: SlabPosition,
}

/// The slice and the step along the face of each of the eight neighbours of a side face, in
/// the order of [NeighbourOffset]: the slice below, this one or above (-1, 0, 1) and the step.
pub open spec fn relative_of(i: int) -> (int, int) {
    if i == 0 {
        (-1, 0)
    } else if i == 1 {
        (-1, 1)
    } else if i == 2 {
        (0, 1)
    } else if i == 3 {
        (1, 1)
    } else if i == 4 {
        (1, 0)
    } else if i == 5 {
        (1, -1)
    } else if i == 6 {
        (0, -1)
    } else {
        (-1, -1)
    }
}

/// The axis along a side face (0 for x, 1 for y) and the direction its steps go.
pub open spec fn face_axis(face: OcclusionFace) -> (int, int) {
    match face {
        OcclusionFace::North => (0, -1),
        OcclusionFace::East => (1, 1),
        OcclusionFace::South => (0, 1),
        _ => (1, -1),
    }
}

/// The block in front of a side face: the chunks crossed to reach it and its position, in the
/// block's slice.
pub open spec fn front_lookup(orig: SlabPosition, face: OcclusionFace) -> NeighbourLookup {
    let (dx, dy) = xy_delta_spec(face);
    let (cx, x) = wrap_coord(orig.0 + dx);
    let (cy, y) = wrap_coord(orig.1 + dy);
    NeighbourLookup { slab_dx: cx as i32, slab_dy: cy as i32, slab_dz: 0, pos: SlabPosition(x as u8, y as u8, orig.2) }
}

/// The `i`th of the eight neighbours around the block in front of a side face: stepped along
/// the face from the block in front, in the slice below, this one or above, the slice and the
/// chunk wrapping into the neighbouring slab or chunk where they leave this one.
pub open spec fn side_lookup(orig: SlabPosition, face: OcclusionFace, i: int) -> NeighbourLookup {
    let front = front_lookup(orig, face);
    let (dz, step) = relative_of(i);
    let (axis, mul) = face_axis(face);
    let sx = if axis == 0 { step * mul } else { 0 };
    let sy = if axis == 1 { step * mul } else { 0 };
    let (cx, x) = wrap_coord(front.pos.0 + sx);
    let (cy, y) = wrap_coord(front.pos.1 + sy);
    let (cz, z) = if dz == 1 {
        if orig.2 < 31 { (0int, orig.2 + 1) } else { (1int, 0int) }
    } else if dz == -1 {
        if orig.2 > 0 { (0int, orig.2 - 1) } else { (-1int, 31int) }
    } else {
        (0int, orig.2 as int)
    };
    NeighbourLookup {
        slab_dx: (cx + front.slab_dx) as i32,
        slab_dy: (cy + front.slab_dy) as i32,
        slab_dz: cz as i32,
        pos: SlabPosition(x as u8, y as u8, z as i32),
    }
}

/// Where to look for the opacity of what lies across a side face of a block: the block in
/// front of the face, and the eight blocks around it, in the order of [NeighbourOffset].
pub fn neighbouring_slice_lookups(orig: SlabPosition, face: OcclusionFace) -> (r: (NeighbourLookup, [NeighbourLookup; 8]))
    requires
        orig.valid(),
        face != OcclusionFace::Top,
    ensures
        r.0 == front_lookup(orig, face),
        forall|i: int| 0 <= i < 8 ==> r.1[i] == side_lookup(orig, face, i),
{
    let (dx, dy) = face.xy_delta();
    let (fcx, fx) = wrap_coord_exec(orig.0 as i32 + dx as i32);
    let (fcy, fy) = wrap_coord_exec(orig.1 as i32 + dy as i32);
    let front = NeighbourLookup { slab_dx: fcx, slab_dy: fcy, slab_dz: 0, pos: SlabPosition(fx as u8, fy as u8, orig.2) };
    let (axis, mul): (i32, i32) = match face {
        OcclusionFace::North => (0, -1),
        OcclusionFace::East => (1, 1),
        OcclusionFace::South => (0, 1),
        _ => (1, -1),
    };
    let dzs: [i32; 8] = [-1, -1, 0, 1, 1, 1, 0, -1];
    let steps: [i32; 8] = [0, 1, 1, 1, 0, -1, -1, -1];
    let mut out = [front; 8];
    let mut i: usize = 0;
    while i < 8
        invariant
            i <= 8,
            orig.valid(),
            face != OcclusionFace::Top,
            front == front_lookup(orig, face),
            (axis as int, mul as int) == face_axis(face),
            -1 <= mul <= 1,
            front.pos.0 < 16 && front.pos.1 < 16,
            forall|k: int| 0 <= k < 8 ==> -1 <= #[trigger] steps@[k] <= 1,
            forall|k: int| 0 <= k < 8 ==> (dzs@[k] as int, steps@[k] as int) == #[trigger] relative_of(k),
            forall|k: int| 0 <= k < i ==> out[k] == side_lookup(orig, face, k),
        decreases 8 - i,
    {
        let step = steps[i] * mul;
        let sx = if axis == 0 { step } else { 0 };
        let sy = if axis == 1 { step } else { 0 };
        let (cx, x) = wrap_coord_exec(front.pos.0 as i32 + sx);
        let (cy, y) = wrap_coord_exec(front.pos.1 as i32 + sy);
        let dz = dzs[i];
        let (cz, z): (i32, i32) = if dz == 1 {
            if orig.2 < 31 { (0, orig.2 + 1) } else { (1, 0) }
        } else if dz == -1 {
            if orig.2 > 0 { (0, orig.2 - 1) } else { (-1, 31) }
        } else {
            (0, orig.2)
        };
        out[i] = NeighbourLookup {
            slab_dx: cx + front.slab_dx,
            slab_dy: cy + front.slab_dy,
            slab_dz: cz,
            pos: SlabPosition(x as u8, y as u8, z),
        };
        proof {
            assert(relative_of(i as int) == (dz as int, steps@[i as int] as int));
        }
        i = i + 1;
    }
    (front, out)
}

/// The opacity of each neighbour across a side face, from what was looked up: all solid when
/// the block in front of the face is solid, else each neighbour as found, `None` where it was
/// not found and stays as it was.
pub fn combine_neighbour_opacity(front_solid: bool, found: [Option<BlockOpacity>; 8]) -> (r: [Option<BlockOpacity>; 8])
    ensures
        forall|i: int| 0 <= i < 8 ==> r[i] == if front_solid {
            Some(BlockOpacity::Solid)
        } else {
            found[i]
        },
{
    if front_solid {
        [Some(BlockOpacity::Solid); 8]
    } else {
        found
    }
}


/// The opacity of each neighbour of each face of a block, by face ordinal then neighbour.
pub open spec fn occlusion_view(b: BlockOcclusion) -> Seq<Seq<BlockOpacity>> {
    b@.map_values(|n: NeighbourOpacity| n.0@)
}

/// No neighbour of any face is known to be solid: a block's occlusion before anything is
/// known of it.
pub open spec fn default_occlusion_view() -> Seq<Seq<BlockOpacity>> {
    Seq::new(5, |f: int| Seq::new(8, |i: int| BlockOpacity::Transparent))
}

/// A change of the opacity of one neighbour of one face of a block of a slab.
pub type OcclusionChange = (SlabPosition, OcclusionFace, u8, BlockOpacity);

/// The blocks of the grid are each there once.
pub open spec fn grid_positions_unique(grid: Seq<(SlabPosition, BlockOcclusion)>) -> bool {
    forall|a: int, b: int| 0 <= a < b < grid.len() ==> (#[trigger] grid[a]).0 != (#[trigger] grid[b]).0
}

/// The occlusion the grid holds for block `p`, if any.
pub open spec fn grid_occlusion(grid: Seq<(SlabPosition, BlockOcclusion)>, p: SlabPosition) -> Option<Seq<Seq<BlockOpacity>>> {
    if exists|a: int| 0 <= a < grid.len() && (#[trigger] grid[a]).0 == p {
        let a = choose|a: int| 0 <= a < grid.len() && (#[trigger] grid[a]).0 == p;
        Some(occlusion_view(grid[a].1))
    } else {
        None
    }
}

/// Block `p`'s occlusion after the first `n` changes, from what it was: each change of the
/// block sets its neighbour's opacity, the block starting from the default where it had none.
pub open spec fn occlusion_after(
    start: Option<Seq<Seq<BlockOpacity>>>,
    changes: Seq<OcclusionChange>,
    p: SlabPosition,
    n: int,
) -> Option<Seq<Seq<BlockOpacity>>>
    decreases n,
{
    if n <= 0 {
        start
    } else {
        let prev = occlusion_after(start, changes, p, n - 1);
        let (pos, face, i, op) = changes[n - 1];
        if pos != p {
            prev
        } else {
            let occ = match prev {
                Some(o) => o,
                None => default_occlusion_view(),
            };
            let f = face_ordinal(face);
            Some(occ.update(f, occ[f].update(i as int, op)))
        }
    }
}

/// Writes the changes of a slab's occlusion into its grid, in order, adding each block that
/// had none; returns whether there were any changes.
pub fn apply_occlusion_changes(grid: &mut Vec<(SlabPosition, BlockOcclusion)>, changes: &[OcclusionChange]) -> (r: bool)
    requires
        grid_positions_unique(old(grid)@),
        forall|a: int| 0 <= a < old(grid)@.len() ==> (#[trigger] old(grid)@[a]).1@.len() == 5,
        forall|k: int| 0 <= k < changes@.len() ==> (#[trigger] changes@[k]).2 < 8,
    ensures
        grid_positions_unique(final(grid)@),
        forall|a: int| 0 <= a < final(grid)@.len() ==> (#[trigger] final(grid)@[a]).1@.len() == 5,
        forall|p: SlabPosition| #[trigger] grid_occlusion(final(grid)@, p) == occlusion_after(
            grid_occlusion(old(grid)@, p),
            changes@,
            p,
            changes@.len() as int,
        ),
        r == (changes@.len() > 0),
{
    let ghost g0 = grid@;
    let mut k: usize = 0;
    while k < changes.len()
        invariant
            k <= changes@.len(),
            forall|j: int| 0 <= j < changes@.len() ==> (#[trigger] changes@[j]).2 < 8,
            grid_positions_unique(grid@),
            forall|a: int| 0 <= a < grid@.len() ==> (#[trigger] grid@[a]).1@.len() == 5,
            forall|p: SlabPosition| #[trigger] grid_occlusion(grid@, p) == occlusion_after(
                grid_occlusion(g0, p),
                changes@,
                p,
                k as int,
            ),
        decreases changes@.len() - k,
    {
        let (pos, face, i, op) = changes[k];
        let ghost before = grid@;
        // find the block's entry, adding one where there is none
        let mut a: usize = 0;
        while a < grid.len() && !(grid[a].0.0 == pos.0 && grid[a].0.1 == pos.1 && grid[a].0.2 == pos.2)
            invariant
                a <= grid@.len(),
                grid@ == before,
                forall|b: int| 0 <= b < a ==> (#[trigger] grid@[b]).0 != pos,
            decreases grid@.len() - a,
        {
            a = a + 1;
        }
        if a == grid.len() {
            grid.push((pos, BlockOcclusion::default_const()));
            proof {
                assert forall|x: int, y: int| 0 <= x < y < grid@.len() implies (#[trigger] grid@[x]).0 != (#[trigger] grid@[y]).0 by {
                    if y == a {
                        assert(before[x].0 != pos);
                    }
                }
                let d = grid@[a as int].1;
                assert forall|f: int| 0 <= f < 5 implies #[trigger] occlusion_view(d)[f] =~= default_occlusion_view()[f] by {
                    assert forall|i: int| 0 <= i < 8 implies d@[f].0@[i] == BlockOpacity::Transparent by {
                        assert(d@[f].0[i] == BlockOpacity::Transparent);
                    }
                }
                assert(occlusion_view(d) =~= default_occlusion_view());
            }
        }
        let ghost mid = grid@;
        let (p, mut occ) = grid[a];
        {
            let n = occ.get_face_mut(face);
            n.0[i as usize] = op;
        }
        grid.set(a, (p, occ));
        proof {
            let g = grid@;
            assert(g[a as int].0 == pos);
            assert forall|x: int, y: int| 0 <= x < y < g.len() implies (#[trigger] g[x]).0 != (#[trigger] g[y]).0 by {
                assert(g[x].0 == mid[x].0 && g[y].0 == mid[y].0);
            }
            assert forall|q: SlabPosition| #[trigger] grid_occlusion(grid@, q) == occlusion_after(
                grid_occlusion(g0, q),
                changes@,
                q,
                k + 1,
            ) by {
                assert(grid_occlusion(before, q) == occlusion_after(grid_occlusion(g0, q), changes@, q, k as int));
                if q == pos {
                    // the block's entry is at `a`
                    let c = choose|c: int| 0 <= c < g.len() && (#[trigger] g[c]).0 == q;
                    assert(c == a);
                    if a < before.len() {
                        let c0 = choose|c: int| 0 <= c < before.len() && (#[trigger] before[c]).0 == q;
                        assert(c0 == a);
                        assert(mid[a as int] == before[a as int]);
                    } else {
                        assert(!(exists|c: int| 0 <= c < before.len() && (#[trigger] before[c]).0 == q));
                    }
                    let f = face_ordinal(face);
                    assert(occlusion_view(g[a as int].1) =~= occlusion_view(mid[a as int].1).update(
                        f,
                        occlusion_view(mid[a as int].1)[f].update(i as int, op),
                    ));
                } else {
                    if exists|c: int| 0 <= c < before.len() && (#[trigger] before[c]).0 == q {
                        let c0 = choose|c: int| 0 <= c < before.len() && (#[trigger] before[c]).0 == q;
                        assert(g[c0] == before[c0]);
                        let c1 = choose|c: int| 0 <= c < g.len() && (#[trigger] g[c]).0 == q;
                        assert(c1 == c0);
                    } else {
                        assert forall|c: int| 0 <= c < g.len() implies (#[trigger] g[c]).0 != q by {
                            if c < before.len() {
                                assert(g[c].0 == before[c].0);
                            }
                        }
                    }
                }
            }
        }
        k = k + 1;
    }
    changes.len() > 0
}


/// The block of a slab is solid; the blocks are given slice by slice from the bottom, each
/// slice in row-major order.
pub open spec fn slab_block_solid(solid: Seq<bool>, p: SlabPosition) -> bool {
    solid[p.2 * 256 + p.1 * 16 + p.0]
}

pub open spec fn opacity_of_solid(solid: bool) -> BlockOpacity {
    if solid {
        BlockOpacity::Solid
    } else {
        BlockOpacity::Transparent
    }
}

/// The lookup stays in the block's own slab.
pub open spec fn in_own_slab(l: NeighbourLookup) -> bool {
    l.slab_dx == 0 && l.slab_dy == 0 && l.slab_dz == 0
}

/// What the slab alone tells of the neighbours across a side face of a block: all solid when
/// the block in front of the face is in the slab and solid; else the opacity of each neighbour
/// that is in the slab, the others left transparent.
pub open spec fn internal_side_opacity(solid: Seq<bool>, orig: SlabPosition, face: OcclusionFace) -> Seq<BlockOpacity> {
    let front = front_lookup(orig, face);
    if front.slab_dx == 0 && front.slab_dy == 0 && slab_block_solid(solid, front.pos) {
        Seq::new(8, |i: int| BlockOpacity::Solid)
    } else {
        Seq::new(
            8,
            |i: int|
                if in_own_slab(side_lookup(orig, face, i)) {
                    opacity_of_solid(slab_block_solid(solid, side_lookup(orig, face, i).pos))
                } else {
                    BlockOpacity::Transparent
                },
        )
    }
}

/// What the slab alone tells of the neighbours above a block's top face: nothing for the top
/// slice; all solid when the block above is solid; else the opacity of each of the eight
/// blocks around the one above that is in the chunk, the others left transparent.
pub open spec fn internal_top_opacity(solid: Seq<bool>, orig: SlabPosition) -> Seq<BlockOpacity> {
    if orig.2 < 31 && slab_block_solid(solid, SlabPosition(orig.0, orig.1, (orig.2 + 1) as i32)) {
        Seq::new(8, |i: int| BlockOpacity::Solid)
    } else {
        Seq::new(
            8,
            |i: int|
                {
                    let (dx, dy) = neighbour_of_ordinal(i).offset_spec();
                    let nx = orig.0 + dx;
                    let ny = orig.1 + dy;
                    if orig.2 < 31 && 0 <= nx < 16 && 0 <= ny < 16 {
                        opacity_of_solid(slab_block_solid(solid, SlabPosition(nx as u8, ny as u8, (orig.2 + 1) as i32)))
                    } else {
                        BlockOpacity::Transparent
                    }
                },
        )
    }
}

/// The face with the given ordinal.
pub open spec fn face_of_ordinal(f: int) -> OcclusionFace {
    if f == 0 {
        OcclusionFace::Top
    } else if f == 1 {
        OcclusionFace::North
    } else if f == 2 {
        OcclusionFace::East
    } else if f == 3 {
        OcclusionFace::South
    } else {
        OcclusionFace::West
    }
}

/// A block's occlusion from its own slab alone: every side face, and the top face where asked.
pub open spec fn internal_occlusion_view(solid: Seq<bool>, pos: SlabPosition, do_top: bool) -> Seq<Seq<BlockOpacity>> {
    Seq::new(
        5,
        |f: int|
            if f == 0 {
                if do_top {
                    internal_top_opacity(solid, pos)
                } else {
                    Seq::new(8, |i: int| BlockOpacity::Transparent)
                }
            } else {
                internal_side_opacity(solid, pos, face_of_ordinal(f))
            },
    )
}

fn solid_in_slab(solid: &[bool], p: SlabPosition) -> (r: bool)
    requires
        solid@.len() == 8192,
        p.valid(),
    ensures
        r == slab_block_solid(solid@, p),
{
    solid[(p.2 as usize * 16 + p.1 as usize) * 16 + p.0 as usize]
}

fn opacity_from_solid(solid: bool) -> (r: BlockOpacity)
    ensures
        r == opacity_of_solid(solid),
{
    if solid {
        BlockOpacity::Solid
    } else {
        BlockOpacity::Transparent
    }
}

fn offset_of_ordinal(i: usize) -> (r: (i32, i32))
    requires
        i < 8,
    ensures
        r.0 == neighbour_of_ordinal(i as int).offset_spec().0,
        r.1 == neighbour_of_ordinal(i as int).offset_spec().1,
{
    if i == 0 {
        (0, -1)
    } else if i == 1 {
        (1, -1)
    } else if i == 2 {
        (1, 0)
    } else if i == 3 {
        (1, 1)
    } else if i == 4 {
        (0, 1)
    } else if i == 5 {
        (-1, 1)
    } else if i == 6 {
        (-1, 0)
    } else {
        (-1, -1)
    }
}

/// The neighbours across a side face of a block as its own slab tells them (see
/// [internal_side_opacity]).
pub fn internal_side_occlusion(solid: &[bool], orig: SlabPosition, face: OcclusionFace) -> (r: NeighbourOpacity)
    requires
        solid@.len() == 8192,
        orig.valid(),
        face != OcclusionFace::Top,
    ensures
        r.0@ == internal_side_opacity(solid@, orig, face),
{
    let (front, around) = neighbouring_slice_lookups(orig, face);
    let mut out = NeighbourOpacity::default_const();
    if front.slab_dx == 0 && front.slab_dy == 0 && solid_in_slab(solid, front.pos) {
        let r = NeighbourOpacity::all_solid();
        assert(r.0@ =~= internal_side_opacity(solid@, orig, face));
        return r;
    }
    let mut i: usize = 0;
    while i < 8
        invariant
            solid@.len() == 8192,
            orig.valid(),
            face != OcclusionFace::Top,
            i <= 8,
            forall|j: int| 0 <= j < 8 ==> around[j] == side_lookup(orig, face, j),
            !(front_lookup(orig, face).slab_dx == 0 && front_lookup(orig, face).slab_dy == 0
                && slab_block_solid(solid@, front_lookup(orig, face).pos)),
            forall|j: int| 0 <= j < i ==> out.0[j] == internal_side_opacity(solid@, orig, face)[j],
            forall|j: int| i <= j < 8 ==> out.0[j] == BlockOpacity::Transparent,
        decreases 8 - i,
    {
        let l = around[i];
        if l.slab_dx == 0 && l.slab_dy == 0 && l.slab_dz == 0 {
            out.0[i] = opacity_from_solid(solid_in_slab(solid, l.pos));
        }
        i = i + 1;
    }
    assert(out.0@ =~= internal_side_opacity(solid@, orig, face));
    out
}

/// The neighbours above a block's top face as its own slab tells them (see
/// [internal_top_opacity]).
pub fn internal_top_occlusion(solid: &[bool], orig: SlabPosition) -> (r: NeighbourOpacity)
    requires
        solid@.len() == 8192,
        orig.valid(),
    ensures
        r.0@ == internal_top_opacity(solid@, orig),
{
    let mut out = NeighbourOpacity::default_const();
    if orig.2 < 31 && solid_in_slab(solid, SlabPosition(orig.0, orig.1, orig.2 + 1)) {
        let r = NeighbourOpacity::all_solid();
        assert(r.0@ =~= internal_top_opacity(solid@, orig));
        return r;
    }
    let mut i: usize = 0;
    while i < 8
        invariant
            solid@.len() == 8192,
            orig.valid(),
            i <= 8,
            !(orig.2 < 31 && slab_block_solid(solid@, SlabPosition(orig.0, orig.1, (orig.2 + 1) as i32))),
            forall|j: int| 0 <= j < i ==> out.0[j] == internal_top_opacity(solid@, orig)[j],
            forall|j: int| i <= j < 8 ==> out.0[j] == BlockOpacity::Transparent,
        decreases 8 - i,
    {
        let (dx, dy) = offset_of_ordinal(i);
        let nx: i32 = orig.0 as i32 + dx;
        let ny: i32 = orig.1 as i32 + dy;
        if orig.2 < 31 && 0 <= nx && nx < 16 && 0 <= ny && ny < 16 {
            out.0[i] = opacity_from_solid(solid_in_slab(solid, SlabPosition(nx as u8, ny as u8, orig.2 + 1)));
        }
        i = i + 1;
    }
    assert(out.0@ =~= internal_top_opacity(solid@, orig));
    out
}

/// A block's occlusion from its own slab alone (see [internal_occlusion_view]).
pub fn internal_block_occlusion(solid: &[bool], pos: SlabPosition, do_top: bool) -> (r: BlockOcclusion)
    requires
        solid@.len() == 8192,
        pos.valid(),
    ensures
        r@.len() == 5,
        occlusion_view(r) == internal_occlusion_view(solid@, pos, do_top),
{
    let mut occlusion = BlockOcclusion::default_const();
    if do_top {
        occlusion.set_face(OcclusionFace::Top, internal_top_occlusion(solid, pos));
    }
    occlusion.set_face(OcclusionFace::North, internal_side_occlusion(solid, pos, OcclusionFace::North));
    occlusion.set_face(OcclusionFace::East, internal_side_occlusion(solid, pos, OcclusionFace::East));
    occlusion.set_face(OcclusionFace::South, internal_side_occlusion(solid, pos, OcclusionFace::South));
    occlusion.set_face(OcclusionFace::West, internal_side_occlusion(solid, pos, OcclusionFace::West));
    proof {
        let v = occlusion_view(occlusion);
        let want = internal_occlusion_view(solid@, pos, do_top);
        assert forall|f: int| 0 <= f < 5 implies #[trigger] v[f] =~= want[f] by {
            if f == 0 && !do_top {
                assert forall|i: int| 0 <= i < 8 implies v[f][i] == BlockOpacity::Transparent by {
                    assert(occlusion@[f].0[i] == BlockOpacity::Transparent);
                }
            }
        }
        assert(v =~= want);
    }
    occlusion
}


/// How many of the opacities are solid.
pub open spec fn solid_count(a: BlockOpacity, b: BlockOpacity, c: BlockOpacity) -> int {
    (if a == BlockOpacity::Solid { 1int } else { 0int }) + (if b == BlockOpacity::Solid { 1int } else { 0int })
        + (if c == BlockOpacity::Solid { 1int } else { 0int })
}

/// A face vertex is fully dark between two solid sides; otherwise it is one rank darker than
/// unoccluded for each solid block among its two sides and its corner. So making a neighbour
/// solid never lightens a vertex.
pub proof fn lemma_vertex_darkness(n: NeighbourOpacity, c: NeighbourOffset)
    ensures
        ({
            let s1 = n.0[(c.ordinal_spec() + 1) % 8];
            let s2 = n.0[(c.ordinal_spec() + 7) % 8];
            let corner = n.0[c.ordinal_spec()];
            &&& (s1 == BlockOpacity::Solid && s2 == BlockOpacity::Solid) ==> vertex_ordinal(vertex_at(n, c)) == 0
            &&& !(s1 == BlockOpacity::Solid && s2 == BlockOpacity::Solid) ==> vertex_ordinal(vertex_at(n, c)) == 3
                - solid_count(s1, s2, corner)
        }),
{
}

/// Making the neighbours of a face solid, any of them, never lightens any of its vertices.
pub proof fn lemma_vertex_darkness_monotone(n: NeighbourOpacity, m: NeighbourOpacity, c: NeighbourOffset)
    requires
        forall|i: int| 0 <= i < 8 && n.0[i] == BlockOpacity::Solid ==> #[trigger] m.0[i] == BlockOpacity::Solid,
    ensures
        vertex_ordinal(vertex_at(m, c)) <= vertex_ordinal(vertex_at(n, c)),
{
    let a = (c.ordinal_spec() + 1) % 8;
    let b = (c.ordinal_spec() + 7) % 8;
    let k = c.ordinal_spec();
    assert(n.0[a] == BlockOpacity::Solid ==> m.0[a] == BlockOpacity::Solid);
    assert(n.0[b] == BlockOpacity::Solid ==> m.0[b] == BlockOpacity::Solid);
    assert(n.0[k] == BlockOpacity::Solid ==> m.0[k] == BlockOpacity::Solid);
    lemma_vertex_darkness(n, c);
    lemma_vertex_darkness(m, c);
}


/// A quad and the same quad with its corners taken one further round are never both split
/// along the other diagonal: a quad is flipped only when one diagonal is strictly darker.
pub proof fn lemma_flip_needs_darker_diagonal(v: Seq<VertexOcclusion>)
    requires
        v.len() == 4,
    ensures
        !(flips(v) && flips(seq![v[1], v[2], v[3], v[0]])),
        vertex_ordinal(v[0]) + vertex_ordinal(v[2]) == vertex_ordinal(v[1]) + vertex_ordinal(v[3]) ==> !flips(v),
        vertex_ordinal(v[0]) + vertex_ordinal(v[2]) < vertex_ordinal(v[1]) + vertex_ordinal(v[3]) ==> flips(v),
{
}

} // verus!
