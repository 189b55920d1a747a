use vstd::prelude::*;

use std::collections::HashSet;

use crate::coordinate::world::{chunk_of, ChunkPosition, SliceIndex, WorldPosition};
use crate::navigationv2::world_graph::lemma_digit;
use crate::slab::{
    all_slabs_in_range, in_slab_box, lists_slab_box, slabs_ascending, slab_location_less, slab_location_lt,
    SlabIndex, SlabLocation, SLAB_SIZE_I32,
};
use crate::world::chunk_pos_lt;

verus! {

/// An inclusive range of global slices, bottom below top.
#[derive(Copy, Clone, Debug, PartialEq, Eq, Structural)]
pub struct SliceRange(pub SliceIndex, pub SliceIndex);

impl View for SliceRange {
    /// The bottom and the top slice.
    type V = (int, int);

    open spec fn view(&self) -> (int, int) {
        (self.0.0 as int, self.1.0 as int)
    }
}

/// The slab holding a global slice.
pub open spec fn slab_of_slice(s: int) -> int {
    s / SLAB_SIZE_I32 as int
}

/// The slab holding a slice.
pub fn slab_of(slice: SliceIndex) -> (r: SlabIndex)
    ensures
        r == slab_of_slice(slice.0 as int),
{
    slice.0.checked_div_euclid(SLAB_SIZE_I32).unwrap()
}

impl SliceRange {
    /// The range of `size` slices ending at `top`.
    pub fn new(top: SliceIndex, size: i32) -> (r: Self)
        requires
            size > 0,
            top.0 - size >= i32::MIN,
        ensures
            r@ == (top.0 - size, top.0 as int),
    {
        Self::from_bounds_unchecked(top - size, top)
    }

    /// The range from `from` to `to`, if `from` is below `to`.
    pub fn from_bounds(from: SliceIndex, to: SliceIndex) -> (r: Option<Self>)
        ensures
            r is Some <==> from.0 < to.0,
            r is Some ==> r->0@ == (from.0 as int, to.0 as int),
    {
        if from.0 < to.0 {
            Some(Self::from_bounds_unchecked(from, to))
        } else {
            None
        }
    }

    pub fn from_bounds_unchecked(from: SliceIndex, to: SliceIndex) -> (r: Self)
        requires
            from.0 < to.0,
        ensures
            r@ == (from.0 as int, to.0 as int),
    {
        Self(from, to)
    }

    /// Every slice there is.
    pub fn all() -> (r: Self)
        ensures
            r@ == (i32::MIN as int, i32::MAX as int),
    {
        Self::from_bounds_unchecked(SliceIndex::min(), SliceIndex::max())
    }

    pub fn contains(self, slice: SliceIndex) -> (r: bool)
        ensures
            r == (self@.0 <= slice.0 <= self@.1),
    {
        self.0.0 <= slice.0 && slice.0 <= self.1.0
    }

    /// The range shares a slice with the range from `from` to `to`.
    pub fn intersects(self, bounds: (SliceIndex, SliceIndex)) -> (r: bool)
        ensures
            r == (self@.1 >= bounds.0.0 && bounds.1.0 >= self@.0),
    {
        let (from, to) = bounds;
        self.1.0 >= from.0 && to.0 >= self.0.0
    }

    pub fn bottom(self) -> (r: SliceIndex)
        ensures
            r.0 == self@.0,
    {
        self.0
    }

    pub fn top(self) -> (r: SliceIndex)
        ensures
            r.0 == self@.1,
    {
        self.1
    }

    pub fn as_range(self) -> (r: core::ops::RangeInclusive<i32>)
        ensures
            r@.start == self@.0,
            r@.end == self@.1,
            r@.exhausted == false,
    {
        core::ops::RangeInclusive::new(self.0.0, self.1.0)
    }

    /// The slabs holding the range's slices, lowest first, each once.
    pub fn slabs(self) -> (r: Vec<SlabIndex>)
        ensures
            r@.len() == slab_of_slice(self@.1) - slab_of_slice(self@.0) + 1 || self@.0 > self@.1,
            forall|i: int| 0 <= i < r@.len() ==> #[trigger] r@[i] == slab_of_slice(self@.0) + i,
            forall|s: int| self@.0 <= s <= self@.1 ==> r@.contains(slab_of_slice(s) as i32),
    {
        let first = self.0.0.checked_div_euclid(SLAB_SIZE_I32).unwrap();
        let last = self.1.0.checked_div_euclid(SLAB_SIZE_I32).unwrap();
        let mut out: Vec<SlabIndex> = Vec::new();
        let mut s = first;
        proof {
            if self@.0 <= self@.1 {
                vstd::arithmetic::div_mod::lemma_div_is_ordered(self@.0, self@.1, 32);
            }
        }
        while s <= last
            invariant
                first == slab_of_slice(self@.0),
                last == slab_of_slice(self@.1),
                first <= s <= last + 1 || (s == first && first > last),
                out@.len() == s - first,
                forall|i: int| 0 <= i < out@.len() ==> #[trigger] out@[i] == first + i,
                last < i32::MAX,
            decreases last + 1 - s,
        {
            out.push(s);
            s = s + 1;
        }
        proof {
            assert forall|sl: int| self@.0 <= sl <= self@.1 implies out@.contains(slab_of_slice(sl) as i32) by {
                vstd::arithmetic::div_mod::lemma_div_is_ordered(self@.0, sl, 32);
                vstd::arithmetic::div_mod::lemma_div_is_ordered(sl, self@.1, 32);
                assert(out@[slab_of_slice(sl) - first] == slab_of_slice(sl));
            }
        }
        out
    }

    /// The number of slices above the bottom one.
    pub fn size(self) -> (r: u32)
        requires
            i32::MIN <= self@.1 - self@.0 <= i32::MAX,
        ensures
            r == (self@.1 - self@.0) as u32,
    {
        (self.1.0 - self.0.0) as u32
    }

    /// The range moved up by `rhs` slices.
    pub fn shifted(self, rhs: i32) -> (r: SliceRange)
        requires
            i32::MIN <= self@.0 + rhs <= i32::MAX,
            i32::MIN <= self@.1 + rhs <= i32::MAX,
        ensures
            r@ == (self@.0 + rhs, self@.1 + rhs),
    {
        SliceRange(self.0 + rhs, self.1 + rhs)
    }
}

impl core::ops::Add<i32> for SliceRange {
    type Output = SliceRange;

    fn add(self, rhs: i32) -> (r: Self::Output) {
        SliceRange(self.0 + rhs, self.1 + rhs)
    }
}

impl vstd::std_specs::ops::AddSpecImpl<i32> for SliceRange {
    open spec fn obeys_add_spec() -> bool {
        true
    }

    open spec fn add_req(self, rhs: i32) -> bool {
        &&& i32::MIN <= self.0.0 + rhs <= i32::MAX
        &&& i32::MIN <= self.1.0 + rhs <= i32::MAX
    }

    open spec fn add_spec(self, rhs: i32) -> SliceRange {
        SliceRange(SliceIndex((self.0.0 + rhs) as i32), SliceIndex((self.1.0 + rhs) as i32))
    }
}

impl From<SliceRange> for (SliceIndex, SliceIndex) {
    fn from(range: SliceRange) -> (r: Self) {
        (range.0, range.1)
    }
}

impl vstd::std_specs::convert::FromSpecImpl<SliceRange> for (SliceIndex, SliceIndex) {
    open spec fn obeys_from_spec() -> bool {
        true
    }

    open spec fn from_spec(range: SliceRange) -> Self {
        (range.0, range.1)
    }
}

/// The number under which the viewer files a slab location in its sets.
pub open spec fn slab_key_int(l: SlabLocation) -> int {
    let x = l.chunk.0 as int + 0x8000_0000;
    let y = l.chunk.1 as int + 0x8000_0000;
    let z = l.slab as int + 0x8000_0000;
    (x * 0x1_0000_0000 + y) * 0x1_0000_0000 + z
}

/// [slab_key_int] as the key type of the viewer's sets.
pub open spec fn slab_key(l: SlabLocation) -> u128 {
    slab_key_int(l) as u128
}

/// The number fits the key type.
proof fn lemma_slab_key_bounds(l: SlabLocation)
    ensures
        0 <= slab_key_int(l) < 0x1_0000_0000_0000_0000_0000_0000,
        slab_key(l) as int == slab_key_int(l),
{
    let x = l.chunk.0 as int + 0x8000_0000;
    let y = l.chunk.1 as int + 0x8000_0000;
    let z = l.slab as int + 0x8000_0000;
    assert(0 <= x * 0x1_0000_0000 + y < 0x1_0000_0000_0000_0000) by (nonlinear_arith)
        requires
            0 <= x < 0x1_0000_0000,
            0 <= y < 0x1_0000_0000,
    ;
    assert(0 <= (x * 0x1_0000_0000 + y) * 0x1_0000_0000 + z < 0x1_0000_0000_0000_0000_0000_0000)
        by (nonlinear_arith)
        requires
            0 <= x * 0x1_0000_0000 + y < 0x1_0000_0000_0000_0000,
            0 <= z < 0x1_0000_0000,
    ;
}

fn slab_key_of(l: SlabLocation) -> (k: u128)
    ensures
        k == slab_key(l),
{
    proof {
        lemma_slab_key_bounds(l);
    }
    let x = (l.chunk.0 as i64 + 0x8000_0000) as u128;
    let y = (l.chunk.1 as i64 + 0x8000_0000) as u128;
    let z = (l.slab as i64 + 0x8000_0000) as u128;
    proof {
        assert(x * 0x1_0000_0000 + y < 0x1_0000_0000_0000_0000) by (nonlinear_arith)
            requires
                x < 0x1_0000_0000,
                y < 0x1_0000_0000,
        ;
        assert((x * 0x1_0000_0000 + y) * 0x1_0000_0000 + z < 0x1_0000_0000_0000_0000_0000_0000)
            by (nonlinear_arith)
            requires
                x * 0x1_0000_0000 + y < 0x1_0000_0000_0000_0000,
                z < 0x1_0000_0000,
        ;
    }
    (x * 0x1_0000_0000 + y) * 0x1_0000_0000 + z
}

/// Different slab locations are filed under different numbers.
pub proof fn lemma_slab_key_injective(a: SlabLocation, b: SlabLocation)
    requires
        slab_key(a) == slab_key(b),
    ensures
        a == b,
{
    lemma_slab_key_bounds(a);
    lemma_slab_key_bounds(b);
    let xa = a.chunk.0 as int + 0x8000_0000;
    let ya = a.chunk.1 as int + 0x8000_0000;
    let za = a.slab as int + 0x8000_0000;
    let xb = b.chunk.0 as int + 0x8000_0000;
    let yb = b.chunk.1 as int + 0x8000_0000;
    let zb = b.slab as int + 0x8000_0000;
    let wa = xa * 0x1_0000_0000 + ya;
    let wb = xb * 0x1_0000_0000 + yb;
    lemma_digit(wa * 0x1_0000_0000 + za, wb * 0x1_0000_0000 + zb, 0x1_0000_0000, wa, za, wb, zb);
    lemma_digit(wa, wb, 0x1_0000_0000, xa, ya, xb, yb);
    assert(a.chunk == b.chunk);
}

/// The slab locations filed in a set of keys.
pub open spec fn keyed_slabs(keys: Set<u128>) -> Set<SlabLocation> {
    Set::new(|l: SlabLocation| keys.contains(slab_key(l)))
}

/// Filing one more location files exactly that location more.
proof fn lemma_keyed_insert(keys: Set<u128>, l: SlabLocation)
    ensures
        keyed_slabs(keys.insert(slab_key(l))) == keyed_slabs(keys).insert(l),
{
    assert forall|m: SlabLocation| keyed_slabs(keys.insert(slab_key(l))).contains(m) <==> keyed_slabs(keys).insert(l).contains(m) by {
        if slab_key(m) == slab_key(l) {
            lemma_slab_key_injective(m, l);
        }
    }
    assert(keyed_slabs(keys.insert(slab_key(l))) =~= keyed_slabs(keys).insert(l));
}

/// Taking out one location's number takes out exactly that location.
proof fn lemma_keyed_remove(keys: Set<u128>, l: SlabLocation)
    ensures
        keyed_slabs(keys.remove(slab_key(l))) == keyed_slabs(keys).remove(l),
{
    assert forall|m: SlabLocation| keyed_slabs(keys.remove(slab_key(l))).contains(m) <==> keyed_slabs(keys).remove(l).contains(m) by {
        if slab_key(m) == slab_key(l) {
            lemma_slab_key_injective(m, l);
        }
    }
    assert(keyed_slabs(keys.remove(slab_key(l))) =~= keyed_slabs(keys).remove(l));
}

/// The first slab of the cuboid of slabs that a slice range shows over a range of chunks.
pub open spec fn view_box_from(range: SliceRange, chunks: (ChunkPosition, ChunkPosition)) -> SlabLocation {
    SlabLocation { slab: slab_of_slice(range@.0) as i32, chunk: chunks.0 }
}

/// The last slab of the cuboid of slabs that a slice range shows over a range of chunks.
pub open spec fn view_box_to(range: SliceRange, chunks: (ChunkPosition, ChunkPosition)) -> SlabLocation {
    SlabLocation { slab: slab_of_slice(range@.1) as i32, chunk: chunks.1 }
}

/// `after` is `before` followed by every slab that the slice range shows over the chunks, by
/// chunk and then by slab.
pub open spec fn appends_view_box(
    before: Seq<SlabLocation>,
    after: Seq<SlabLocation>,
    range: SliceRange,
    chunks: (ChunkPosition, ChunkPosition),
) -> bool {
    &&& before.len() <= after.len()
    &&& after.take(before.len() as int) == before
    &&& lists_slab_box(after.skip(before.len() as int), view_box_from(range, chunks), view_box_to(range, chunks))
}

/// The chunk lies in the rectangle with corners `from` and `to`.
pub open spec fn in_chunk_box(from: (int, int), to: (int, int), c: ChunkPosition) -> bool {
    &&& from.0 <= c.0 <= to.0
    &&& from.1 <= c.1 <= to.1
}

/// The sequence lists each chunk once, by column and then by row.
pub open spec fn chunks_ascending(s: Seq<ChunkPosition>) -> bool {
    forall|i: int, j: int| 0 <= i < j < s.len() ==> chunk_pos_lt(#[trigger] s[i], #[trigger] s[j])
}

/// Why a viewer could not be placed.
#[derive(Debug, Clone, Copy, PartialEq, Eq, Structural)]
pub enum WorldViewerError {
    /// No block was found in the column at these coordinates.
    InvalidStartColumn(i32, i32),
    /// The view range fell outside the world's slices, given here.
    InvalidRange(SliceRange),
}

/// The chunk holding a block.
pub open spec fn chunk_of_block(b: WorldPosition) -> ChunkPosition {
    ChunkPosition(chunk_of(b.0 as int) as i32, chunk_of(b.1 as int) as i32)
}

/// The view range that a viewer starts with: `half` slices either side of the centre, cut to
/// the world's slices.
pub open spec fn initial_view(bounds: SliceRange, centre: int, half: int) -> (int, int) {
    (
        if centre - half > bounds@.0 { centre - half } else { bounds@.0 },
        if centre + half < bounds@.1 { centre + half } else { bounds@.1 },
    )
}

/// What part of the world a player looks at: a range of slices over a range of chunks, which
/// slabs have had their meshes made since they last changed, and which slabs it has asked to
/// load.
pub struct WorldViewer {
    view_range: SliceRange,
    chunk_range: (ChunkPosition, ChunkPosition),
    clean_slabs: HashSet<u128>,
    requested_slabs: Vec<SlabLocation>,
    /// Any slabs in this set will not be requested again.
    all_requested_slabs: HashSet<u128>,
}

impl WorldViewer {
    /// The slices in view.
    pub closed spec fn range(&self) -> SliceRange {
        self.view_range
    }

    /// The lowest and the highest chunk in view.
    pub closed spec fn chunks(&self) -> (ChunkPosition, ChunkPosition) {
        self.chunk_range
    }

    /// The slabs whose meshes are up to date.
    pub closed spec fn clean(&self) -> Set<SlabLocation> {
        keyed_slabs(self.clean_slabs@)
    }

    /// The slab requests not yet handed on, in order.
    pub closed spec fn pending(&self) -> Seq<SlabLocation> {
        self.requested_slabs@
    }

    /// Every slab that has been handed out as a request.
    pub closed spec fn ever_requested(&self) -> Set<SlabLocation> {
        keyed_slabs(self.all_requested_slabs@)
    }

    /// The view range holds at least two slices.
    pub open spec fn wf(&self) -> bool {
        self.range()@.0 < self.range()@.1
    }

    /// `after` looks at `range` over the chunks that `before` looked at, with every mesh out of
    /// date, and has asked for the slabs in view.
    pub open spec fn moved_to(before: WorldViewer, after: WorldViewer, range: SliceRange) -> bool {
        &&& after.range() == range
        &&& after.chunks() == before.chunks()
        &&& after.clean() == Set::<SlabLocation>::empty()
        &&& appends_view_box(before.pending(), after.pending(), range, before.chunks())
        &&& after.ever_requested() == before.ever_requested()
    }

    /// A viewer centred on the slice of `initial_block`, seeing `initial_view_size / 2` slices
    /// either way within the world's slices `world_bounds`, over the chunk of the block.
    pub fn with_world(
        world_bounds: SliceRange,
        initial_block: WorldPosition,
        initial_view_size: u16,
    ) -> (r: Result<Self, WorldViewerError>)
        requires
            i32::MIN <= initial_block.2 - initial_view_size / 2,
            initial_block.2 + initial_view_size / 2 <= i32::MAX,
        ensures
            ({
                let v = initial_view(world_bounds, initial_block.2 as int, (initial_view_size / 2) as int);
                match r {
                    Ok(viewer) => {
                        &&& v.0 < v.1
                        &&& viewer.range()@ == v
                        &&& viewer.chunks() == (chunk_of_block(initial_block), chunk_of_block(initial_block))
                        &&& viewer.clean() == Set::<SlabLocation>::empty()
                        &&& viewer.pending() == Seq::<SlabLocation>::empty()
                        &&& viewer.ever_requested() == Set::<SlabLocation>::empty()
                        &&& viewer.wf()
                    },
                    Err(e) => {
                        &&& v.0 >= v.1
                        &&& e == WorldViewerError::InvalidRange(world_bounds)
                    },
                }
            }),
    {
        let half_range = (initial_view_size / 2) as i32;
        let centre_slice = SliceIndex(initial_block.2);
        let low = centre_slice - half_range;
        let high = centre_slice + half_range;
        let from = if low.0 > world_bounds.bottom().0 { low } else { world_bounds.bottom() };
        let to = if high.0 < world_bounds.top().0 { high } else { world_bounds.top() };
        let view_range = match SliceRange::from_bounds(from, to) {
            Some(range) => range,
            None => {
                return Err(WorldViewerError::InvalidRange(world_bounds));
            },
        };
        let initial_chunk = initial_block.chunk();
        let r = WorldViewer {
            view_range,
            chunk_range: (initial_chunk, initial_chunk),
            clean_slabs: HashSet::new(),
            requested_slabs: Vec::new(),
            all_requested_slabs: HashSet::new(),
        };
        proof {
            assert(r.clean() =~= Set::<SlabLocation>::empty());
            assert(r.ever_requested() =~= Set::<SlabLocation>::empty());
        }
        Ok(r)
    }

    /// Appends every slab of the cuboid that `range` shows over `chunks` to the requests.
    fn request_view_box(&mut self, range: SliceRange, chunks: (ChunkPosition, ChunkPosition))
        ensures
            final(self).range() == old(self).range(),
            final(self).chunks() == old(self).chunks(),
            final(self).clean() == old(self).clean(),
            final(self).ever_requested() == old(self).ever_requested(),
            appends_view_box(old(self).pending(), final(self).pending(), range, chunks),
    {
        let from = SlabLocation::new(slab_of(range.bottom()), chunks.0);
        let to = SlabLocation::new(slab_of(range.top()), chunks.1);
        let (mut slabs, _count) = all_slabs_in_range(from, to);
        let ghost before = self.requested_slabs@;
        let ghost added = slabs@;
        self.requested_slabs.append(&mut slabs);
        proof {
            assert(self.requested_slabs@.take(before.len() as int) =~= before);
            assert(self.requested_slabs@.skip(before.len() as int) =~= added);
        }
    }

    /// Looks at `new_range`: every mesh is out of date, and the slabs in view are requested.
    fn update_range(&mut self, new_range: SliceRange)
        requires
            new_range@.0 < new_range@.1,
        ensures
            WorldViewer::moved_to(*old(self), *final(self), new_range),
            final(self).wf(),
    {
        self.view_range = new_range;
        self.clean_slabs.clear();
        let chunks = self.chunk_range;
        self.request_view_box(new_range, chunks);
        proof {
            assert(self.clean() =~= Set::<SlabLocation>::empty());
        }
    }

    /// Moves the top of the view by `delta` slices, unless that leaves no slice above the bottom.
    pub fn stretch_by(&mut self, delta: i32)
        requires
            i32::MIN <= old(self).range()@.1 + delta <= i32::MAX,
        ensures
            if old(self).range()@.0 < old(self).range()@.1 + delta {
                &&& WorldViewer::moved_to(*old(self), *final(self), final(self).range())
                &&& final(self).range()@ == (old(self).range()@.0, old(self).range()@.1 + delta)
                &&& final(self).wf()
            } else {
                *final(self) == *old(self)
            },
    {
        let bottom = self.view_range.bottom();
        let new_top = self.view_range.top() + delta;
        if let Some(new_range) = SliceRange::from_bounds(bottom, new_top) {
            self.update_range(new_range)
        }
    }

    /// Moves the view up by `delta` slices.
    pub fn move_by(&mut self, delta: i32)
        requires
            old(self).wf(),
            i32::MIN <= old(self).range()@.0 + delta,
            old(self).range()@.1 + delta <= i32::MAX,
        ensures
            WorldViewer::moved_to(*old(self), *final(self), final(self).range()),
            final(self).range()@ == (old(self).range()@.0 + delta, old(self).range()@.1 + delta),
            final(self).wf(),
    {
        let new_range = self.view_range.shifted(delta);
        self.update_range(new_range);
    }

    /// Moves the view up by `delta` times its size.
    pub fn move_by_multiple(&mut self, delta: i32)
        requires
            old(self).wf(),
            old(self).range()@.1 - old(self).range()@.0 <= i32::MAX,
            i32::MIN <= delta * (old(self).range()@.1 - old(self).range()@.0) <= i32::MAX,
            i32::MIN <= old(self).range()@.0 + delta * (old(self).range()@.1 - old(self).range()@.0),
            old(self).range()@.1 + delta * (old(self).range()@.1 - old(self).range()@.0) <= i32::MAX,
        ensures
            ({
                let d = delta * (old(self).range()@.1 - old(self).range()@.0);
                &&& WorldViewer::moved_to(*old(self), *final(self), final(self).range())
                &&& final(self).range()@ == (old(self).range()@.0 + d, old(self).range()@.1 + d)
                &&& final(self).wf()
            }),
    {
        let size = self.view_range.size();
        let d = delta * (size as i32);
        self.move_by(d);
    }

    /// The slice range for terrain rendering.
    pub fn terrain_range(&self) -> (r: SliceRange)
        ensures
            r == self.range(),
    {
        self.view_range
    }

    /// The slice range for entity rendering: 1 above the terrain. This means we will always be
    /// able to see entities walking above the bottom slice of terrain (never floating), and on
    /// top of the highest slice.
    pub fn entity_range(&self) -> (r: SliceRange)
        requires
            self.range()@.1 < i32::MAX,
            self.range()@.0 < self.range()@.1,
        ensures
            r@ == (self.range()@.0 + 1, self.range()@.1 + 1),
    {
        self.view_range.shifted(1)
    }

    /// The lowest and the highest chunk in view.
    pub fn chunk_range(&self) -> (r: (ChunkPosition, ChunkPosition))
        ensures
            r == self.chunks(),
    {
        self.chunk_range
    }

    /// Shows the chunks from `range.0` to `range.1`; when they differ from those shown so far,
    /// the slabs now in view are requested.
    pub fn set_chunk_bounds(&mut self, range: (ChunkPosition, ChunkPosition))
        requires
            !chunk_pos_lt(range.1, range.0),
        ensures
            final(self).chunks() == range,
            final(self).range() == old(self).range(),
            final(self).clean() == old(self).clean(),
            final(self).ever_requested() == old(self).ever_requested(),
            if old(self).chunks() != range {
                appends_view_box(old(self).pending(), final(self).pending(), old(self).range(), range)
            } else {
                final(self).pending() == old(self).pending()
            },
    {
        let prev_range = self.chunk_range;
        self.chunk_range = range;
        if prev_range.0 != range.0 || prev_range.1 != range.1 {
            let slice_range = self.view_range;
            self.request_view_box(slice_range, range);
        }
    }

    /// Whether the mesh of the slab is out of date.
    fn is_slab_dirty(&self, slab: SlabLocation) -> (r: bool)
        ensures
            r == !self.clean().contains(slab),
    {
        let k = slab_key_of(slab);
        !self.clean_slabs.contains(&k)
    }

    /// Marks the mesh of the slab out of date.
    pub fn mark_dirty(&mut self, slab: SlabLocation)
        ensures
            final(self).clean() == old(self).clean().remove(slab),
            final(self).range() == old(self).range(),
            final(self).chunks() == old(self).chunks(),
            final(self).pending() == old(self).pending(),
            final(self).ever_requested() == old(self).ever_requested(),
    {
        let k = slab_key_of(slab);
        let ghost keys = self.clean_slabs@;
        self.clean_slabs.remove(&k);
        proof {
            assert(self.clean_slabs@ == keys.remove(k));
            lemma_keyed_remove(keys, slab);
        }
    }

    /// The slabs that `range` shows over the chunks in view, by chunk and then by slab.
    pub fn visible_slabs(&self, range: SliceRange) -> (r: Vec<SlabLocation>)
        ensures
            lists_slab_box(r@, view_box_from(range, self.chunks()), view_box_to(range, self.chunks())),
    {
        let from = SlabLocation::new(slab_of(range.bottom()), self.chunk_range.0);
        let to = SlabLocation::new(slab_of(range.top()), self.chunk_range.1);
        let (slabs, _count) = all_slabs_in_range(from, to);
        slabs
    }
}

/// The items of `s` whose flag in `keep` is set, in order.
pub open spec fn kept(s: Seq<SlabLocation>, keep: Seq<bool>) -> Seq<SlabLocation>
    decreases s.len(),
{
    if s.len() == 0 {
        Seq::empty()
    } else {
        let rest = kept(s.drop_last(), keep.drop_last());
        if keep.last() {
            rest.push(s.last())
        } else {
            rest
        }
    }
}

/// Puts `l` into the ascending list at its place, unless it is there already.
fn insert_ascending(v: &mut Vec<SlabLocation>, l: SlabLocation)
    requires
        slabs_ascending(old(v)@),
    ensures
        slabs_ascending(final(v)@),
        forall|m: SlabLocation| final(v)@.contains(m) <==> (old(v)@.contains(m) || m == l),
{
    let mut i: usize = 0;
    while i < v.len() && slab_location_less(v[i], l)
        invariant
            v@ == old(v)@,
            slabs_ascending(v@),
            i <= v@.len(),
            forall|k: int| 0 <= k < i ==> slab_location_lt(#[trigger] v@[k], l),
        decreases v@.len() - i,
    {
        i = i + 1;
    }
    if i < v.len() && v[i] == l {
        proof {
            assert(v@[i as int] == l);
            assert(v@.contains(l));
        }
        return;
    }
    let ghost before = v@;
    v.insert(i, l);
    proof {
        assert(v@ == before.insert(i as int, l));
        assert forall|a: int, b: int| 0 <= a < b < v@.len() implies slab_location_lt(#[trigger] v@[a], #[trigger] v@[b]) by {
            if b < i {
            } else if b == i {
            } else if a < i {
                assert(v@[b] == before[b - 1]);
                assert(slab_location_lt(l, before[i as int]) || before[i as int] == l);
            } else if a == i {
                assert(v@[b] == before[b - 1]);
                assert(!slab_location_lt(before[i as int], l));
                assert(before[i as int] != l);
            } else {
                assert(v@[a] == before[a - 1] && v@[b] == before[b - 1]);
            }
        }
        assert forall|m: SlabLocation| v@.contains(m) <==> (before.contains(m) || m == l) by {
            if v@.contains(m) {
                let k = choose|k: int| 0 <= k < v@.len() && v@[k] == m;
                if k < i {
                    assert(before[k] == m);
                } else if k > i {
                    assert(before[k - 1] == m);
                }
            }
            if before.contains(m) {
                let k = choose|k: int| 0 <= k < before.len() && before[k] == m;
                if k < i {
                    assert(v@[k] == m);
                } else {
                    assert(v@[k + 1] == m);
                }
            }
            if m == l {
                assert(v@[i as int] == m);
            }
        }
        assert(before == old(v)@);
        assert(forall|m: SlabLocation| v@.contains(m) <==> (old(v)@.contains(m) || m == l));
    }
}

impl WorldViewer {
    /// The chunks in view, and one more column and row below, by column and then by row.
    pub fn visible_chunks(&self) -> (r: Vec<ChunkPosition>)
        requires
            i32::MIN < self.chunks().0.0,
            i32::MIN < self.chunks().0.1,
        ensures
            chunks_ascending(r@),
            forall|c: ChunkPosition|
                r@.contains(c) <==> #[trigger] in_chunk_box(
                    (self.chunks().0.0 - 1, self.chunks().0.1 - 1),
                    (self.chunks().1.0 as int, self.chunks().1.1 as int),
                    c,
                ),
    {
        let (min, max) = self.chunk_range;
        let ghost from = (min.0 - 1, min.1 - 1);
        let ghost to = (max.0 as int, max.1 as int);
        let mut out: Vec<ChunkPosition> = Vec::new();
        let mut x: i64 = min.0 as i64 - 1;
        while x <= max.0 as i64
            invariant
                from == (min.0 - 1, min.1 - 1),
                to == (max.0 as int, max.1 as int),
                i32::MIN < min.0,
                i32::MIN < min.1,
                min.0 - 1 <= x <= max.0 + 1 || x == min.0 - 1,
                chunks_ascending(out@),
                forall|k: int| 0 <= k < out@.len() ==> (#[trigger] out@[k]).0 < x,
                forall|c: ChunkPosition| out@.contains(c) <==> (#[trigger] in_chunk_box(from, to, c) && c.0 < x),
            decreases max.0 + 1 - x,
        {
            let mut y: i64 = min.1 as i64 - 1;
            while y <= max.1 as i64
                invariant
                    from == (min.0 - 1, min.1 - 1),
                    to == (max.0 as int, max.1 as int),
                    i32::MIN < min.0,
                    i32::MIN < min.1,
                    min.0 - 1 <= x <= max.0,
                    min.1 - 1 <= y <= max.1 + 1 || y == min.1 - 1,
                    chunks_ascending(out@),
                    forall|k: int| 0 <= k < out@.len() ==> (#[trigger] out@[k]).0 <= x,
                    forall|k: int| 0 <= k < out@.len() ==> (#[trigger] out@[k]).0 < x || out@[k].1 < y,
                    forall|c: ChunkPosition| out@.contains(c) <==> (#[trigger] in_chunk_box(from, to, c) && (c.0 < x || (c.0 == x && c.1 < y))),
                decreases max.1 + 1 - y,
            {
                let c = ChunkPosition(x as i32, y as i32);
                let ghost before = out@;
                out.push(c);
                proof {
                    assert(c.0 == x && c.1 == y);
                    assert(out@[before.len() as int] == c);
                    assert forall|k: int| 0 <= k < out@.len() implies (#[trigger] out@[k]).0 < x || out@[k].1 < y + 1 by {
                        if k < before.len() {
                            assert(out@[k] == before[k]);
                        }
                    }
                    assert forall|k: int| 0 <= k < out@.len() implies (#[trigger] out@[k]).0 <= x by {
                        if k < before.len() {
                            assert(out@[k] == before[k]);
                        }
                    }
                    assert forall|a: int, b: int| 0 <= a < b < out@.len() implies chunk_pos_lt(#[trigger] out@[a], #[trigger] out@[b]) by {
                        assert(out@[a] == before[a]);
                        if b < before.len() {
                            assert(out@[b] == before[b]);
                        }
                    }
                    assert forall|d: ChunkPosition| out@.contains(d) <==> (#[trigger] in_chunk_box(from, to, d) && (d.0 < x || (d.0 == x && d.1 < y + 1))) by {
                        if out@.contains(d) {
                            let k = choose|k: int| 0 <= k < out@.len() && out@[k] == d;
                            if k < before.len() {
                                assert(before[k] == d);
                                assert(before.contains(d));
                            }
                        }
                        if in_chunk_box(from, to, d) && (d.0 < x || (d.0 == x && d.1 < y + 1)) {
                            if d == c {
                                assert(out@[before.len() as int] == d);
                            } else {
                                assert(before.contains(d));
                                let k = choose|k: int| 0 <= k < before.len() && before[k] == d;
                                assert(out@[k] == d);
                            }
                        }
                    }
                }
                y = y + 1;
            }
            x = x + 1;
        }
        out
    }

    /// `after` and `handed` are what handing out the requests of `before`, with `extras` added,
    /// leaves and returns: the pending requests and the extras that were never handed out before,
    /// each once, by chunk and then by slab; they are now recorded as handed out.
    pub open spec fn hands_out(
        before: WorldViewer,
        extras: Seq<SlabLocation>,
        after: WorldViewer,
        handed: Seq<SlabLocation>,
    ) -> bool {
        &&& slabs_ascending(after.pending())
        &&& forall|l: SlabLocation|
            #![trigger after.pending().contains(l)]
            after.pending().contains(l) <==> ((before.pending().contains(l) || extras.contains(l))
                && !before.ever_requested().contains(l))
        &&& after.ever_requested() == before.ever_requested().union(after.pending().to_set())
        &&& handed == after.pending()
        &&& after.range() == before.range()
        &&& after.chunks() == before.chunks()
        &&& after.clean() == before.clean()
    }

    /// A slab handed out as a request is never handed out again: between two hand-outs the
    /// record of handed-out slabs only grows, as every operation of the viewer keeps it.
    pub proof fn lemma_requests_not_repeated(
        a: WorldViewer,
        e1: Seq<SlabLocation>,
        b: WorldViewer,
        r1: Seq<SlabLocation>,
        c: WorldViewer,
        e2: Seq<SlabLocation>,
        d: WorldViewer,
        r2: Seq<SlabLocation>,
    )
        requires
            WorldViewer::hands_out(a, e1, b, r1),
            b.ever_requested().subset_of(c.ever_requested()),
            WorldViewer::hands_out(c, e2, d, r2),
        ensures
            forall|l: SlabLocation| r1.contains(l) ==> !r2.contains(l),
    {
        assert forall|l: SlabLocation| r1.contains(l) implies !r2.contains(l) by {
            assert(b.pending().to_set().contains(l));
            assert(b.ever_requested().contains(l));
            assert(c.ever_requested().contains(l));
            if r2.contains(l) {
                assert(d.pending().contains(l));
                assert(!c.ever_requested().contains(l));
            }
        }
    }

    /// Hands out the slab requests: the pending ones and `extras`, each once, by chunk and then
    /// by slab, leaving out any slab handed out before. They stay pending until consumed, and
    /// are never handed out again.
    pub fn requested_slabs(&mut self, extras: Vec<SlabLocation>) -> (r: Vec<SlabLocation>)
        ensures
            WorldViewer::hands_out(*old(self), extras@, *final(self), r@),
    {
        let ghost ever = self.ever_requested();
        let mut pending: Vec<SlabLocation> = Vec::new();
        std::mem::swap(&mut pending, &mut self.requested_slabs);
        let ghost old_pending = pending@;
        let mut sorted: Vec<SlabLocation> = Vec::new();
        let mut i: usize = 0;
        while i < pending.len()
            invariant
                ever == keyed_slabs(self.all_requested_slabs@),
                old_pending == pending@,
                self.range() == old(self).range(),
                self.chunks() == old(self).chunks(),
                self.clean() == old(self).clean(),
                i <= old_pending.len(),
                slabs_ascending(sorted@),
                forall|m: SlabLocation|
                    #![trigger sorted@.contains(m)]
                    #![trigger old_pending.take(i as int).contains(m)]
                    sorted@.contains(m) <==> (old_pending.take(i as int).contains(m) && !ever.contains(m)),
            decreases old_pending.len() - i,
        {
            let l = pending[i];
            let k = slab_key_of(l);
            let seen = self.all_requested_slabs.contains(&k);
            proof {
                assert(seen == ever.contains(l));
            }
            let ghost s0 = sorted@;
            if !seen {
                insert_ascending(&mut sorted, l);
            }
            proof {
                assert(old_pending.take(i + 1) =~= old_pending.take(i as int).push(l));
                assert forall|m: SlabLocation| sorted@.contains(m) <==> (old_pending.take(i + 1).contains(m) && !ever.contains(m)) by {
                    vstd::seq_lib::lemma_seq_contains_after_push(old_pending.take(i as int), l, m);
                    assert(s0.contains(m) <==> (old_pending.take(i as int).contains(m) && !ever.contains(m)));
                    if !seen {
                        assert(sorted@.contains(m) <==> (s0.contains(m) || m == l));
                    } else {
                        assert(sorted@ == s0);
                    }
                }
            }
            i = i + 1;
        }
        proof {
            assert(old_pending.take(old_pending.len() as int) =~= old_pending);
            assert(extras@.take(0) =~= Seq::<SlabLocation>::empty());
            assert forall|m: SlabLocation| sorted@.contains(m) <==> ((old_pending.contains(m) || extras@.take(0).contains(m)) && !ever.contains(m)) by {
                assert(sorted@.contains(m) <==> (old_pending.take(i as int).contains(m) && !ever.contains(m)));
                assert(!extras@.take(0).contains(m));
            }
        }
        let mut j: usize = 0;
        while j < extras.len()
            invariant
                ever == keyed_slabs(self.all_requested_slabs@),
                self.range() == old(self).range(),
                self.chunks() == old(self).chunks(),
                self.clean() == old(self).clean(),
                j <= extras@.len(),
                slabs_ascending(sorted@),
                forall|m: SlabLocation| sorted@.contains(m) <==> ((old_pending.contains(m) || extras@.take(j as int).contains(m)) && !ever.contains(m)),
            decreases extras@.len() - j,
        {
            let l = extras[j];
            let k = slab_key_of(l);
            let seen = self.all_requested_slabs.contains(&k);
            proof {
                assert(seen == ever.contains(l));
            }
            let ghost s0 = sorted@;
            if !seen {
                insert_ascending(&mut sorted, l);
            }
            proof {
                assert(extras@.take(j + 1) =~= extras@.take(j as int).push(l));
                assert forall|m: SlabLocation| sorted@.contains(m) <==> ((old_pending.contains(m) || extras@.take(j + 1).contains(m)) && !ever.contains(m)) by {
                    vstd::seq_lib::lemma_seq_contains_after_push(extras@.take(j as int), l, m);
                    assert(s0.contains(m) <==> ((old_pending.contains(m) || extras@.take(j as int).contains(m)) && !ever.contains(m)));
                    if !seen {
                        assert(sorted@.contains(m) <==> (s0.contains(m) || m == l));
                    } else {
                        assert(sorted@ == s0);
                    }
                }
            }
            j = j + 1;
        }
        proof {
            assert(extras@.take(extras@.len() as int) =~= extras@);
        }
        let mut out: Vec<SlabLocation> = Vec::new();
        let mut n: usize = 0;
        while n < sorted.len()
            invariant
                n <= sorted@.len(),
                out@ == sorted@.take(n as int),
                keyed_slabs(self.all_requested_slabs@) == ever.union(sorted@.take(n as int).to_set()),
                self.range() == old(self).range(),
                self.chunks() == old(self).chunks(),
                self.clean() == old(self).clean(),
            decreases sorted@.len() - n,
        {
            let l = sorted[n];
            let k = slab_key_of(l);
            let ghost keys = self.all_requested_slabs@;
            self.all_requested_slabs.insert(k);
            proof {
                lemma_keyed_insert(keys, l);
                assert(sorted@.take(n + 1) =~= sorted@.take(n as int).push(l));
                sorted@.take(n as int).lemma_push_to_set_commute(l);
                assert(ever.union(sorted@.take(n + 1).to_set()) =~= ever.union(sorted@.take(n as int).to_set()).insert(l));
            }
            out.push(l);
            n = n + 1;
        }
        proof {
            assert(sorted@.take(sorted@.len() as int) =~= sorted@);
        }
        self.requested_slabs = sorted;
        out
    }

    /// The pending requests, in order.
    pub fn pending_requests(&self) -> (r: &[SlabLocation])
        ensures
            r@ == self.pending(),
    {
        self.requested_slabs.as_slice()
    }

    /// Drops the first `n` pending requests, once they have been handed on.
    pub fn consume_requested(&mut self, n: usize)
        requires
            n <= old(self).pending().len(),
        ensures
            final(self).pending() == old(self).pending().skip(n as int),
            final(self).range() == old(self).range(),
            final(self).chunks() == old(self).chunks(),
            final(self).clean() == old(self).clean(),
            final(self).ever_requested() == old(self).ever_requested(),
    {
        let rest = self.requested_slabs.split_off(n);
        self.requested_slabs = rest;
        proof {
            assert(self.requested_slabs@ =~= old(self).pending().skip(n as int));
        }
    }

    /// Keeps the pending requests for which `pred` holds, in order.
    pub fn filter_requested<F: Fn(SlabLocation) -> bool>(&mut self, pred: F)
        requires
            forall|l: SlabLocation| pred.requires((l,)),
        ensures
            exists|keep: Seq<bool>|
                #![trigger kept(old(self).pending(), keep)]
                {
                    &&& keep.len() == old(self).pending().len()
                    &&& forall|i: int| 0 <= i < keep.len() ==> pred.ensures((old(self).pending()[i],), #[trigger] keep[i])
                    &&& final(self).pending() == kept(old(self).pending(), keep)
                },
            final(self).range() == old(self).range(),
            final(self).chunks() == old(self).chunks(),
            final(self).clean() == old(self).clean(),
            final(self).ever_requested() == old(self).ever_requested(),
    {
        let ghost before = self.requested_slabs@;
        let ghost mut keep: Seq<bool> = Seq::empty();
        let mut out: Vec<SlabLocation> = Vec::new();
        let mut i: usize = 0;
        while i < self.requested_slabs.len()
            invariant
                before == self.requested_slabs@,
                forall|l: SlabLocation| pred.requires((l,)),
                i <= before.len(),
                keep.len() == i,
                forall|k: int| 0 <= k < keep.len() ==> pred.ensures((before[k],), #[trigger] keep[k]),
                out@ == kept(before.take(i as int), keep),
            decreases before.len() - i,
        {
            let l = self.requested_slabs[i];
            let b = pred(l);
            proof {
                let t = before.take(i + 1);
                assert(t.drop_last() =~= before.take(i as int));
                assert(keep.push(b).drop_last() =~= keep);
                keep = keep.push(b);
            }
            if b {
                out.push(l);
            }
            i = i + 1;
        }
        proof {
            assert(before.take(before.len() as int) =~= before);
            assert(out@ == kept(before, keep));
        }
        self.requested_slabs = out;
        proof {
            assert(keep.len() == old(self).pending().len());
            assert(forall|i: int| 0 <= i < keep.len() ==> pred.ensures((old(self).pending()[i],), #[trigger] keep[i]));
            assert(self.pending() == kept(old(self).pending(), keep));
        }
    }

    /// The chunks with a slab out of date among those that `range` shows, by column and then by
    /// row, each once.
    pub fn dirty_chunks_in_view(&self, range: SliceRange) -> (r: Vec<ChunkPosition>)
        ensures
            chunks_ascending(r@),
            forall|c: ChunkPosition|
                r@.contains(c) <==> exists|l: SlabLocation|
                    #[trigger] in_slab_box(view_box_from(range, self.chunks()), view_box_to(range, self.chunks()), l)
                        && !self.clean().contains(l) && l.chunk == c,
    {
        let slabs = self.visible_slabs(range);
        let ghost from = view_box_from(range, self.chunks());
        let ghost to = view_box_to(range, self.chunks());
        let mut out: Vec<ChunkPosition> = Vec::new();
        let mut i: usize = 0;
        while i < slabs.len()
            invariant
                lists_slab_box(slabs@, from, to),
                i <= slabs@.len(),
                chunks_ascending(out@),
                out@.len() > 0 ==> forall|j: int| i <= j < slabs@.len() ==> !chunk_pos_lt((#[trigger] slabs@[j]).chunk, out@.last()),
                forall|c: ChunkPosition| out@.contains(c) <==> exists|j: int| 0 <= j < i && !self.clean().contains(#[trigger] slabs@[j]) && slabs@[j].chunk == c,
            decreases slabs@.len() - i,
        {
            let l = slabs[i];
            let ghost before = out@;
            if self.is_slab_dirty(l) {
                let n = out.len();
                if n == 0 || out[n - 1] != l.chunk {
                    out.push(l.chunk);
                    proof {
                        assert forall|a: int, b: int| 0 <= a < b < out@.len() implies chunk_pos_lt(#[trigger] out@[a], #[trigger] out@[b]) by {
                            assert(out@[a] == before[a]);
                            if b < before.len() {
                                assert(out@[b] == before[b]);
                            } else {
                                assert(!chunk_pos_lt(slabs@[i as int].chunk, before.last()));
                                assert(before[a] == before.last() || chunk_pos_lt(before[a], before.last()));
                            }
                        }
                        assert forall|j: int| i + 1 <= j < slabs@.len() implies !chunk_pos_lt((#[trigger] slabs@[j]).chunk, out@.last()) by {
                            assert(slab_location_lt(slabs@[i as int], slabs@[j]));
                        }
                    }
                } else {
                    proof {
                        assert forall|j: int| i + 1 <= j < slabs@.len() implies !chunk_pos_lt((#[trigger] slabs@[j]).chunk, out@.last()) by {
                            assert(slab_location_lt(slabs@[i as int], slabs@[j]));
                        }
                    }
                }
            }
            proof {
                assert forall|c: ChunkPosition| out@.contains(c) <==> exists|j: int| 0 <= j < i + 1 && !self.clean().contains(#[trigger] slabs@[j]) && slabs@[j].chunk == c by {
                    if out@.contains(c) {
                        let k = choose|k: int| 0 <= k < out@.len() && out@[k] == c;
                        if k < before.len() {
                            assert(before[k] == c);
                            assert(before.contains(c));
                        } else {
                            assert(!self.clean().contains(slabs@[i as int]) && slabs@[i as int].chunk == c);
                        }
                    }
                    if exists|j: int| 0 <= j < i + 1 && !self.clean().contains(#[trigger] slabs@[j]) && slabs@[j].chunk == c {
                        let j = choose|j: int| 0 <= j < i + 1 && !self.clean().contains(#[trigger] slabs@[j]) && slabs@[j].chunk == c;
                        if j < i {
                            assert(before.contains(c));
                            let k = choose|k: int| 0 <= k < before.len() && before[k] == c;
                            assert(out@[k] == c);
                        } else if before.len() > 0 && before.last() == c {
                            assert(out@[before.len() - 1] == c);
                        } else {
                            assert(out@.last() == c);
                        }
                    }
                }
            }
            i = i + 1;
        }
        proof {
            assert forall|c: ChunkPosition| out@.contains(c) <==> exists|l: SlabLocation| #[trigger] in_slab_box(from, to, l) && !self.clean().contains(l) && l.chunk == c by {
                if out@.contains(c) {
                    let j = choose|j: int| 0 <= j < slabs@.len() && !self.clean().contains(#[trigger] slabs@[j]) && slabs@[j].chunk == c;
                    assert(slabs@.contains(slabs@[j]));
                    assert(in_slab_box(from, to, slabs@[j]));
                }
                if exists|l: SlabLocation| #[trigger] in_slab_box(from, to, l) && !self.clean().contains(l) && l.chunk == c {
                    let l = choose|l: SlabLocation| #[trigger] in_slab_box(from, to, l) && !self.clean().contains(l) && l.chunk == c;
                    assert(slabs@.contains(l));
                    let j = choose|j: int| 0 <= j < slabs@.len() && slabs@[j] == l;
                    assert(!self.clean().contains(slabs@[j]) && slabs@[j].chunk == c);
                }
            }
        }
        out
    }

    /// Marks the meshes of the slabs that `range` shows up to date.
    pub fn mark_view_clean(&mut self, range: SliceRange)
        ensures
            final(self).clean() == old(self).clean().union(
                Set::new(|l: SlabLocation| in_slab_box(view_box_from(range, old(self).chunks()), view_box_to(range, old(self).chunks()), l)),
            ),
            final(self).range() == old(self).range(),
            final(self).chunks() == old(self).chunks(),
            final(self).pending() == old(self).pending(),
            final(self).ever_requested() == old(self).ever_requested(),
    {
        let slabs = self.visible_slabs(range);
        let ghost start = self.clean();
        let mut i: usize = 0;
        while i < slabs.len()
            invariant
                i <= slabs@.len(),
                self.clean() == start.union(slabs@.take(i as int).to_set()),
                self.range() == old(self).range(),
                self.chunks() == old(self).chunks(),
                self.pending() == old(self).pending(),
                self.ever_requested() == old(self).ever_requested(),
            decreases slabs@.len() - i,
        {
            let l = slabs[i];
            let k = slab_key_of(l);
            let ghost keys = self.clean_slabs@;
            self.clean_slabs.insert(k);
            proof {
                lemma_keyed_insert(keys, l);
                assert(slabs@.take(i + 1) =~= slabs@.take(i as int).push(l));
                slabs@.take(i as int).lemma_push_to_set_commute(l);
                assert(start.union(slabs@.take(i + 1).to_set()) =~= start.union(slabs@.take(i as int).to_set()).insert(l));
            }
            i = i + 1;
        }
        proof {
            assert(slabs@.take(slabs@.len() as int) =~= slabs@);
            assert(slabs@.to_set() =~= Set::new(|l: SlabLocation| in_slab_box(view_box_from(range, old(self).chunks()), view_box_to(range, old(self).chunks()), l)));
        }
    }
}

} // verus!
