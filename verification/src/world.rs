use vstd::prelude::*;

use crate::chunk::chunk::Chunk;
use crate::chunk::slab::{AreaInfo, SliceNavArea};
use crate::coordinate::world::{offset_in_chunk, SliceBlock, SliceIndex, WorldPosition};
use crate::navigationv2::{range_contains, ChunkArea, WorldArea};
use crate::slab::SLAB_SIZE_I32;
use crate::viewer::{chunk_of_block, slab_of, slab_of_slice};
use crate::chunk::chunk::{areas_replaced, SlabLoadingStatus};
use crate::coordinate::world::ChunkPosition;
use crate::navigationv2::world_graph::{areas_outside, slab_taken_out, WorldGraph};
use crate::slab::SlabLocation;

verus! {

/// Chunk `a` comes before chunk `b`: by x, then by y.
pub open spec fn chunk_pos_lt(a: ChunkPosition, b: ChunkPosition) -> bool {
    a.0 < b.0 || (a.0 == b.0 && a.1 < b.1)
}

fn chunk_pos_less(a: ChunkPosition, b: ChunkPosition) -> (r: bool)
    ensures
        r == chunk_pos_lt(a, b),
{
    a.0 < b.0 || (a.0 == b.0 && a.1 < b.1)
}

/// The chunks' positions are in increasing order, so no two chunks share a position.
pub open spec fn chunks_sorted(chunks: Seq<Chunk>) -> bool {
    forall|i: int, j: int|
        0 <= i < j < chunks.len() ==> chunk_pos_lt(
            (#[trigger] chunks[i]).pos_view(),
            (#[trigger] chunks[j]).pos_view(),
        )
}

/// The area `a` of the chunk holds the block `pos`: it is of the block's slab and slice, and
/// its range covers the block's column.
pub open spec fn area_holds_block(c: Chunk, a: ChunkArea, pos: WorldPosition) -> bool {
    &&& c.areas_view().contains_key(a)
    &&& a.slab_idx == slab_of_slice(pos.2 as int)
    &&& a.slab_area.slice_idx == pos.2 as int % 32
    &&& range_contains(c.areas_view()[a].range, offset_in_chunk(pos.0 as int), offset_in_chunk(pos.1 as int))
}

/// The navigation side of the loaded world: its chunks, by position, and the graph of their
/// areas.
pub struct World {
    chunks: Vec<Chunk>,
    nav_graph: WorldGraph,
}

impl World {
    /// The chunks, in order of position.
    pub closed spec fn chunks_view(&self) -> Seq<Chunk> {
        self.chunks@
    }

    pub closed spec fn nav_graph_view(&self) -> WorldGraph {
        self.nav_graph
    }

    /// The chunks are in order of position and well formed, and so is the graph.
    pub closed spec fn wf(&self) -> bool {
        &&& chunks_sorted(self.chunks@)
        &&& forall|i: int| 0 <= i < self.chunks@.len() ==> (#[trigger] self.chunks@[i]).wf()
        &&& self.nav_graph.wf()
    }

    /// No two loaded chunks share a position.
    pub proof fn lemma_chunk_positions_distinct(&self, i: int, j: int)
        requires
            self.wf(),
            0 <= i < self.chunks_view().len(),
            0 <= j < self.chunks_view().len(),
            self.chunks_view()[i].pos_view() == self.chunks_view()[j].pos_view(),
        ensures
            i == j,
    {
        if i < j {
            assert(chunk_pos_lt(self.chunks@[i].pos_view(), self.chunks@[j].pos_view()));
        } else if j < i {
            assert(chunk_pos_lt(self.chunks@[j].pos_view(), self.chunks@[i].pos_view()));
        }
    }

    pub fn empty() -> (r: Self)
        ensures
            r.wf(),
            r.chunks_view() == Seq::<Chunk>::empty(),
            r.nav_graph_view().wf(),
            r.nav_graph_view().area_nodes() == Map::<crate::navigationv2::WorldArea, u32>::empty(),
            r.nav_graph_view().edge_map() == crate::navigationv2::world_graph::NavEdgeMap::empty(),
    {
        World { chunks: Vec::new(), nav_graph: WorldGraph::default() }
    }

    pub fn all_chunks(&self) -> (r: &Vec<Chunk>)
        ensures
            r@ == self.chunks_view(),
    {
        &self.chunks
    }

    /// Where the chunk at the position is in the chunks, or where it would go.
    fn find_chunk_index(&self, chunk_pos: ChunkPosition) -> (r: Result<usize, usize>)
        requires
            chunks_sorted(self.chunks_view()),
        ensures
            match r {
                Ok(i) => i < self.chunks_view().len() && self.chunks_view()[i as int].pos_view()
                    == chunk_pos,
                Err(i) => {
                    &&& i <= self.chunks_view().len()
                    &&& forall|j: int|
                        0 <= j < i ==> chunk_pos_lt(
                            (#[trigger] self.chunks_view()[j]).pos_view(),
                            chunk_pos,
                        )
                    &&& forall|j: int|
                        i <= j < self.chunks_view().len() ==> chunk_pos_lt(
                            chunk_pos,
                            (#[trigger] self.chunks_view()[j]).pos_view(),
                        )
                },
            },
    {
        let mut lo: usize = 0;
        let mut hi: usize = self.chunks.len();
        while lo < hi
            invariant
                lo <= hi <= self.chunks@.len(),
                chunks_sorted(self.chunks@),
                forall|j: int| 0 <= j < lo ==> chunk_pos_lt((#[trigger] self.chunks@[j]).pos_view(), chunk_pos),
                forall|j: int|
                    hi <= j < self.chunks@.len() ==> chunk_pos_lt(chunk_pos, (#[trigger] self.chunks@[j]).pos_view()),
            decreases hi - lo,
        {
            let mid = lo + (hi - lo) / 2;
            let p = self.chunks[mid].pos();
            if chunk_pos_less(p, chunk_pos) {
                proof {
                    assert forall|j: int| 0 <= j < mid + 1 implies chunk_pos_lt(
                        (#[trigger] self.chunks@[j]).pos_view(),
                        chunk_pos,
                    ) by {
                        if j < mid {
                            assert(chunk_pos_lt(self.chunks@[j].pos_view(), self.chunks@[mid as int].pos_view()));
                        }
                    }
                }
                lo = mid + 1;
            } else if chunk_pos_less(chunk_pos, p) {
                proof {
                    assert forall|j: int| mid <= j < self.chunks@.len() implies chunk_pos_lt(
                        chunk_pos,
                        (#[trigger] self.chunks@[j]).pos_view(),
                    ) by {
                        if j > mid {
                            assert(chunk_pos_lt(self.chunks@[mid as int].pos_view(), self.chunks@[j].pos_view()));
                        }
                    }
                }
                hi = mid;
            } else {
                return Ok(mid);
            }
        }
        Err(lo)
    }

    /// The chunk at the position, if it is loaded.
    pub fn find_chunk_with_pos(&self, chunk_pos: ChunkPosition) -> (r: Option<&Chunk>)
        requires
            self.wf(),
        ensures
            r is Some <==> exists|i: int|
                0 <= i < self.chunks_view().len() && (#[trigger] self.chunks_view()[i]).pos_view()
                    == chunk_pos,
            r matches Some(c) ==> exists|i: int|
                0 <= i < self.chunks_view().len() && *c == #[trigger] self.chunks_view()[i]
                    && c.pos_view() == chunk_pos,
    {
        match self.find_chunk_index(chunk_pos) {
            Ok(idx) => Some(&self.chunks[idx]),
            Err(_) => None,
        }
    }

    /// What is known of a world area: found in its chunk, if that is loaded and has the area.
    pub fn lookup_area_info(&self, area: WorldArea) -> (r: Option<AreaInfo>)
        requires
            self.wf(),
        ensures
            r is Some <==> exists|i: int|
                0 <= i < self.chunks_view().len() && (#[trigger] self.chunks_view()[i]).pos_view()
                    == area.chunk_idx && self.chunks_view()[i].areas_view().contains_key(
                    area.chunk_area,
                ),
            forall|i: int|
                0 <= i < self.chunks_view().len() && (#[trigger] self.chunks_view()[i]).pos_view()
                    == area.chunk_idx && self.chunks_view()[i].areas_view().contains_key(
                    area.chunk_area,
                ) ==> r == Some(self.chunks_view()[i].areas_view()[area.chunk_area]),
    {
        match self.find_chunk_index(area.chunk_idx) {
            Ok(idx) => {
                proof {
                    assert forall|i: int|
                        0 <= i < self.chunks_view().len() && (#[trigger] self.chunks_view()[i]).pos_view()
                            == area.chunk_idx implies i == idx by {
                        if i < idx {
                            assert(chunk_pos_lt(self.chunks@[i].pos_view(), self.chunks@[idx as int].pos_view()));
                        } else if i > idx {
                            assert(chunk_pos_lt(self.chunks@[idx as int].pos_view(), self.chunks@[i].pos_view()));
                        }
                    }
                }
                self.chunks[idx].area_info(area.chunk_area.slab_idx, area.chunk_area.slab_area)
            },
            Err(_) => None,
        }
    }

    /// The area that holds the block: of its chunk, slab and slice, and covering its column;
    /// `None` when there is none.
    pub fn areav2(&self, pos: WorldPosition) -> (r: Option<WorldArea>)
        requires
            self.wf(),
        ensures
            match r {
                Some(w) => {
                    &&& w.chunk_idx == chunk_of_block(pos)
                    &&& exists|i: int|
                        0 <= i < self.chunks_view().len() && (#[trigger] self.chunks_view()[i]).pos_view()
                            == w.chunk_idx && area_holds_block(self.chunks_view()[i], w.chunk_area, pos)
                },
                None => forall|i: int, a: ChunkArea|
                    0 <= i < self.chunks_view().len() && (#[trigger] self.chunks_view()[i]).pos_view()
                        == chunk_of_block(pos) ==> !#[trigger] area_holds_block(self.chunks_view()[i], a, pos),
            },
    {
        let chunk_pos = pos.chunk();
        let chunk = match self.find_chunk_with_pos(chunk_pos) {
            Some(c) => c,
            None => {
                return None;
            },
        };
        let ghost ci = choose|i: int|
            0 <= i < self.chunks_view().len() && *chunk == #[trigger] self.chunks_view()[i]
                && chunk.pos_view() == chunk_pos;
        proof {
            lemma_chunk_unique(self.chunks@, ci);
            assert(chunk.wf());
        }
        let slab_idx = slab_of(SliceIndex(pos.2));
        let slice = pos.2.checked_rem_euclid(SLAB_SIZE_I32).unwrap() as u8;
        let block = pos.block();
        let xy = SliceBlock(block.0, block.1);
        let areas = chunk.iter_areas_with_info();
        let mut i: usize = 0;
        while i < areas.len()
            invariant
                i <= areas@.len(),
                chunk.wf(),
                0 <= ci < self.chunks_view().len(),
                self.chunks_view()[ci] == *chunk,
                chunk.pos_view() == chunk_of_block(pos),
                slab_idx == slab_of_slice(pos.2 as int),
                slice == pos.2 as int % 32,
                xy.0.0 == offset_in_chunk(pos.0 as int),
                xy.1.0 == offset_in_chunk(pos.1 as int),
                forall|p: (ChunkArea, AreaInfo)|
                    #[trigger] areas@.contains(p) <==> chunk.areas_view().contains_key(p.0)
                        && chunk.areas_view()[p.0] == p.1,
                forall|k: int| 0 <= k < i ==> !area_holds_block(*chunk, (#[trigger] areas@[k]).0, pos),
            decreases areas@.len() - i,
        {
            let (a, info) = areas[i];
            proof {
                assert(areas@.contains(areas@[i as int]));
            }
            if a.slab_idx == slab_idx && a.slab_area.slice_idx == slice && info.contains(xy) {
                let cp = chunk.pos();
                proof {
                    assert(chunk.areas_view().contains_key(a) && chunk.areas_view()[a] == info);
                    assert(area_holds_block(self.chunks_view()[ci], a, pos));
                    assert(cp == chunk_of_block(pos));
                }
                return Some(WorldArea { chunk_idx: cp, chunk_area: a });
            }
            i = i + 1;
        }
        proof {
            assert forall|j: int, a: ChunkArea|
                0 <= j < self.chunks_view().len() && (#[trigger] self.chunks_view()[j]).pos_view()
                    == chunk_of_block(pos) implies !#[trigger] area_holds_block(self.chunks_view()[j], a, pos) by {
                assert(j == ci);
                if area_holds_block(*chunk, a, pos) {
                    let p = (a, chunk.areas_view()[a]);
                    assert(areas@.contains(p));
                    let k = choose|k: int| 0 <= k < areas@.len() && areas@[k] == p;
                    assert(!area_holds_block(*chunk, areas@[k].0, pos));
                }
            }
        }
        None
    }

    /// The chunk at the position, if it is loaded, to change; whatever the chunk becomes takes
    /// its place among the chunks.
    pub fn find_chunk_with_pos_mut(&mut self, chunk_pos: ChunkPosition) -> (r: Option<&mut Chunk>)
        requires
            old(self).wf(),
        ensures
            r is Some <==> exists|i: int|
                0 <= i < old(self).chunks_view().len() && (#[trigger] old(self).chunks_view()[i]).pos_view()
                    == chunk_pos,
            r matches Some(c) ==> exists|i: int|
                0 <= i < old(self).chunks_view().len() && *c == #[trigger] old(self).chunks_view()[i]
                    && final(self).chunks_view() == old(self).chunks_view().update(i, *final(c)),
            r is None ==> *final(self) == *old(self),
            final(self).nav_graph_view() == old(self).nav_graph_view(),
    {
        match self.find_chunk_index(chunk_pos) {
            Ok(idx) => {
                Some(&mut self.chunks[idx])
            },
            Err(_) => None,
        }
    }

    /// The chunk at the position, added empty where it belongs if it is not there yet; its
    /// index in the chunks comes back.
    pub fn ensure_chunk(&mut self, chunk: ChunkPosition) -> (r: usize)
        requires
            old(self).wf(),
        ensures
            final(self).wf(),
            r < final(self).chunks_view().len(),
            final(self).chunks_view()[r as int].pos_view() == chunk,
            final(self).nav_graph_view() == old(self).nav_graph_view(),
            (exists|i: int|
                0 <= i < old(self).chunks_view().len() && (#[trigger] old(self).chunks_view()[i]).pos_view()
                    == chunk) ==> final(self).chunks_view() == old(self).chunks_view(),
            !(exists|i: int|
                0 <= i < old(self).chunks_view().len() && (#[trigger] old(self).chunks_view()[i]).pos_view()
                    == chunk) ==> final(self).chunks_view() == old(self).chunks_view().insert(
                r as int,
                final(self).chunks_view()[r as int],
            ) && final(self).chunks_view()[r as int].areas_view().is_empty()
                && final(self).chunks_view()[r as int].progress_view().is_empty(),
    {
        match self.find_chunk_index(chunk) {
            Ok(idx) => idx,
            Err(idx) => {
                let ghost before = self.chunks@;
                let c = Chunk::empty(chunk);
                self.chunks.insert(idx, c);
                proof {
                    assert forall|i: int, j: int| 0 <= i < j < self.chunks@.len() implies chunk_pos_lt(
                        (#[trigger] self.chunks@[i]).pos_view(),
                        (#[trigger] self.chunks@[j]).pos_view(),
                    ) by {
                        if j < idx {
                            assert(self.chunks@[i] == before[i] && self.chunks@[j] == before[j]);
                        } else if j == idx {
                            assert(self.chunks@[i] == before[i]);
                        } else if i == idx {
                            assert(self.chunks@[j] == before[j - 1]);
                        } else if i < idx {
                            assert(self.chunks@[i] == before[i] && self.chunks@[j] == before[j - 1]);
                        } else {
                            assert(self.chunks@[i] == before[i - 1] && self.chunks@[j] == before[j - 1]);
                        }
                    }
                    assert forall|i: int| 0 <= i < self.chunks@.len() implies (#[trigger] self.chunks@[i]).wf() by {
                        if i < idx {
                            assert(self.chunks@[i] == before[i]);
                        } else if i > idx {
                            assert(self.chunks@[i] == before[i - 1]);
                        }
                    }
                    if exists|i: int| 0 <= i < before.len() && (#[trigger] before[i]).pos_view() == chunk {
                        let i = choose|i: int| 0 <= i < before.len() && (#[trigger] before[i]).pos_view() == chunk;
                        if i < idx {
                        } else {
                        }
                    }
                    assert(self.chunks@ =~= before.insert(idx as int, c));
                }
                idx
            },
        }
    }

    /// Takes a slab out of navigation before its terrain changes: its chunk forgets the slab's
    /// areas and marks it requested again, and the world graph loses the slab's areas and their
    /// edges. `false`, changing nothing, where the slab's chunk is not loaded.
    pub fn invalidate_slab(&mut self, slab: SlabLocation) -> (r: bool)
        requires
            old(self).wf(),
        ensures
            final(self).wf(),
            r == exists|i: int|
                0 <= i < old(self).chunks_view().len() && (#[trigger] old(self).chunks_view()[i]).pos_view() == slab.chunk,
            !r ==> *final(self) == *old(self),
            r ==> exists|i: int|
                0 <= i < old(self).chunks_view().len() && (#[trigger] old(self).chunks_view()[i]).pos_view() == slab.chunk && {
                    let c0 = old(self).chunks_view()[i];
                    let c1 = final(self).chunks_view()[i];
                    &&& final(self).chunks_view() == old(self).chunks_view().update(i, c1)
                    &&& c1.pos_view() == c0.pos_view()
                    &&& areas_replaced(c0.areas_view(), c1.areas_view(), slab.slab, Seq::empty())
                    &&& c1.progress_view() == c0.progress_view().insert(slab.slab, SlabLoadingStatus::Requested)
                },
            r ==> final(self).nav_graph_view().area_nodes() == areas_outside(old(self).nav_graph_view().area_nodes(), slab),
            r ==> slab_taken_out(old(self).nav_graph_view(), final(self).nav_graph_view(), slab),
            !r ==> final(self).nav_graph_view() == old(self).nav_graph_view(),
    {
        match self.find_chunk_index(slab.chunk) {
            Err(_) => {
                proof {
                    if exists|i: int| 0 <= i < self.chunks@.len() && (#[trigger] self.chunks@[i]).pos_view() == slab.chunk {
                        let i = choose|i: int| 0 <= i < self.chunks@.len() && (#[trigger] self.chunks@[i]).pos_view() == slab.chunk;
                        assert(chunk_pos_lt(self.chunks@[i].pos_view(), slab.chunk) || chunk_pos_lt(slab.chunk, self.chunks@[i].pos_view()));
                    }
                }
                false
            },
            Ok(idx) => {
                let ghost before = self.chunks@;
                let mut c = self.chunks.remove(idx);
                let none: [SliceNavArea; 0] = [];
                c.replace_all_slice_areas(slab.slab, &none);
                c.mark_slab_requested(slab.slab);
                self.chunks.insert(idx, c);
                proof {
                    assert(self.chunks@ =~= before.update(idx as int, c));
                    assert forall|i: int, j: int| 0 <= i < j < self.chunks@.len() implies chunk_pos_lt(
                        (#[trigger] self.chunks@[i]).pos_view(),
                        (#[trigger] self.chunks@[j]).pos_view(),
                    ) by {
                        assert(chunk_pos_lt(before[i].pos_view(), before[j].pos_view()));
                    }
                    assert forall|i: int| 0 <= i < self.chunks@.len() implies (#[trigger] self.chunks@[i]).wf() by {
                        if i != idx {
                            assert(self.chunks@[i] == before[i]);
                        }
                    }
                    assert(none@ =~= Seq::<SliceNavArea>::empty());
                }
                self.nav_graph.disconnect_slab(slab);
                true
            },
        }
    }

    pub fn nav_graph(&self) -> (r: &WorldGraph)
        ensures
            *r == self.nav_graph_view(),
    {
        &self.nav_graph
    }

    /// The graph, to change; whatever it becomes is the world's graph.
    pub fn nav_graph_mut(&mut self) -> (r: &mut WorldGraph)
        ensures
            *r == old(self).nav_graph_view(),
            final(self).nav_graph_view() == *final(r),
            final(self).chunks_view() == old(self).chunks_view(),
    {
        &mut self.nav_graph
    }

    /// Removes slabs that are already loaded and not placeholders.
    /// More efficient when sorted by slab
    ///
    /// Keeps, in order, the slabs whose chunk is not loaded or whose chunk would have them
    /// loaded (see [Chunk::should_slab_be_loaded]).
    pub fn retain_slabs_to_load(&self, slabs: &mut Vec<SlabLocation>)
        requires
            self.wf(),
        ensures
            final(slabs)@ == old(slabs)@.filter(|s: SlabLocation| self.wants_slab(s)),
    {
        let mut contiguous_chunks = ContiguousChunkIterator::new(self);
        let ghost before = slabs@;
        let mut kept: Vec<SlabLocation> = Vec::new();
        let mut i: usize = 0;
        while i < slabs.len()
            invariant
                i <= slabs@.len(),
                slabs@ == before,
                self.wf(),
                contiguous_chunks.wf(),
                contiguous_chunks.world_view() == *self,
                kept@ == before.subrange(0, i as int).filter(|s: SlabLocation| self.wants_slab(s)),
            decreases slabs@.len() - i,
        {
            let slab = slabs[i];
            let keep = match contiguous_chunks.next(slab.chunk) {
                Some(chunk) => chunk.should_slab_be_loaded(slab.slab),
                None => {
                    // chunk is unloaded so its slabs are too
                    true
                },
            };
            proof {
                let s1 = before.subrange(0, i + 1);
                assert(s1.drop_last() =~= before.subrange(0, i as int));
                reveal(Seq::filter);
                if keep != self.wants_slab(slab) {
                    if exists|j: int|
                        0 <= j < self.chunks@.len() && (#[trigger] self.chunks@[j]).pos_view() == slab.chunk {
                        let j = choose|j: int|
                            0 <= j < self.chunks@.len() && (#[trigger] self.chunks@[j]).pos_view() == slab.chunk;
                        lemma_chunk_unique(self.chunks@, j);
                    }
                }
            }
            if keep {
                kept.push(slab);
            }
            i = i + 1;
        }
        proof {
            assert(before.subrange(0, before.len() as int) =~= before);
        }
        *slabs = kept;
    }

    /// The slab is to be loaded: its chunk is not loaded, or would have it loaded.
    pub open spec fn wants_slab(&self, s: SlabLocation) -> bool {
        forall|i: int|
            0 <= i < self.chunks_view().len() && (#[trigger] self.chunks_view()[i]).pos_view() == s.chunk
                ==> self.chunks_view()[i].status(s.slab) == crate::chunk::chunk::SlabLoadingStatus::Unloaded
    }
}

/// A chunk changed in place, keeping its position and well formed, leaves the world well
/// formed.
pub proof fn lemma_chunk_changed(before: World, after: World, i: int, c: Chunk)
    requires
        before.wf(),
        0 <= i < before.chunks_view().len(),
        c.pos_view() == before.chunks_view()[i].pos_view(),
        c.wf(),
        after.chunks_view() == before.chunks_view().update(i, c),
        after.nav_graph_view() == before.nav_graph_view(),
    ensures
        after.wf(),
{
    assert forall|a: int, b: int| 0 <= a < b < after.chunks@.len() implies chunk_pos_lt(
        (#[trigger] after.chunks@[a]).pos_view(),
        (#[trigger] after.chunks@[b]).pos_view(),
    ) by {
        assert(chunk_pos_lt(before.chunks@[a].pos_view(), before.chunks@[b].pos_view()));
    }
    assert forall|a: int| 0 <= a < after.chunks@.len() implies (#[trigger] after.chunks@[a]).wf() by {
        if a != i {
            assert(after.chunks@[a] == before.chunks@[a]);
        }
    }
}

/// A graph changed in place and still well formed leaves the world well formed.
pub proof fn lemma_graph_changed(before: World, after: World)
    requires
        before.wf(),
        after.chunks_view() == before.chunks_view(),
        after.nav_graph_view().wf(),
    ensures
        after.wf(),
{
}

/// Only one chunk of sorted chunks is at a position.
pub proof fn lemma_chunk_unique(chunks: Seq<Chunk>, i: int)
    requires
        chunks_sorted(chunks),
        0 <= i < chunks.len(),
    ensures
        forall|j: int|
            0 <= j < chunks.len() && (#[trigger] chunks[j]).pos_view() == chunks[i].pos_view() ==> j == i,
{
    assert forall|j: int| 0 <= j < chunks.len() && (#[trigger] chunks[j]).pos_view() == chunks[i].pos_view() implies j == i by {
        if j < i {
            assert(chunk_pos_lt(chunks[j].pos_view(), chunks[i].pos_view()));
        } else if j > i {
            assert(chunk_pos_lt(chunks[i].pos_view(), chunks[j].pos_view()));
        }
    }
}

/// Looks chunks up one after another, remembering the last one so that a run of lookups of
/// the same chunk searches once.
pub struct ContiguousChunkIterator<'a> {
    world: &'a World,
    last_chunk: Option<(ChunkPosition, Option<usize>)>,
    /// The last lookup was of the chunk looked up before it.
    matched_last: bool,
}

impl<'a> ContiguousChunkIterator<'a> {
    pub closed spec fn world_view(&self) -> World {
        *self.world
    }

    /// The chunk looked up last, if any.
    pub closed spec fn last_view(&self) -> Option<ChunkPosition> {
        match self.last_chunk {
            Some((loc, _)) => Some(loc),
            None => None,
        }
    }

    /// Whether the last lookup was of the chunk looked up before it.
    pub closed spec fn matched_last_view(&self) -> bool {
        self.matched_last
    }

    /// Whether the last lookup was of the chunk looked up before it, the remembered one being
    /// used.
    pub fn matched_last(&self) -> (r: bool)
        ensures
            r == self.matched_last_view(),
    {
        self.matched_last
    }

    /// The remembered chunk is where it was found, or is not loaded.
    pub closed spec fn wf(&self) -> bool {
        &&& self.world.wf()
        &&& match self.last_chunk {
            Some((loc, Some(idx))) => idx < self.world.chunks@.len() && self.world.chunks@[idx as int].pos_view() == loc,
            Some((loc, None)) => forall|j: int|
                0 <= j < self.world.chunks@.len() ==> (#[trigger] self.world.chunks@[j]).pos_view() != loc,
            None => true,
        }
    }

    pub fn new(world: &'a World) -> (r: Self)
        requires
            world.wf(),
        ensures
            r.wf(),
            r.world_view() == *world,
            r.last_view() is None,
    {
        ContiguousChunkIterator { world, last_chunk: None, matched_last: false }
    }

    /// The chunk at the position, if it is loaded.
    pub fn next(&mut self, chunk: ChunkPosition) -> (r: Option<&'a Chunk>)
        requires
            old(self).wf(),
        ensures
            final(self).wf(),
            final(self).world_view() == old(self).world_view(),
            final(self).last_view() == Some(chunk),
            final(self).matched_last_view() == (old(self).last_view() == Some(chunk)),
            r is Some <==> exists|i: int|
                0 <= i < old(self).world_view().chunks_view().len() && (
                #[trigger] old(self).world_view().chunks_view()[i]).pos_view() == chunk,
            r matches Some(c) ==> exists|i: int|
                0 <= i < old(self).world_view().chunks_view().len() && *c
                    == #[trigger] old(self).world_view().chunks_view()[i] && c.pos_view() == chunk,
    {
        let last = self.last_chunk.take();
        proof {
            assert(last == old(self).last_chunk);
        }
        let cached = match last {
            Some((last_loc, idx)) => {
                if last_loc.0 == chunk.0 && last_loc.1 == chunk.1 {
                    Some(idx)
                } else {
                    None
                }
            },
            None => None,
        };
        match cached {
            Some(idx) => {
                // nice, reuse index of chunk without lookup
                proof {
                    let (loc, i2) = last.unwrap();
                    assert(loc == chunk);
                    assert(i2 == idx);
                }
                self.last_chunk = Some((chunk, idx));
                self.matched_last = true;
                match idx {
                    Some(idx) => {
                        let c = &self.world.chunks[idx];
                        proof {
                            assert(*c == old(self).world_view().chunks_view()[idx as int]);
                        }
                        Some(c)
                    },
                    None => None,
                }
            },
            None => {
                // new chunk
                self.matched_last = false;
                proof {
                    if let Some((loc, _)) = last {
                        assert(!(loc.0 == chunk.0 && loc.1 == chunk.1));
                    }
                    assert(old(self).world_view() == *self.world);
                }
                match self.world.find_chunk_index(chunk) {
                    Ok(idx) => {
                        self.last_chunk = Some((chunk, Some(idx)));
                        let c = &self.world.chunks[idx];
                        proof {
                            assert(*c == old(self).world_view().chunks_view()[idx as int]);
                        }
                        Some(c)
                    },
                    Err(i) => {
                        proof {
                            assert forall|j: int|
                                0 <= j < old(self).world_view().chunks_view().len() implies (
                                #[trigger] old(self).world_view().chunks_view()[j]).pos_view() != chunk by {
                                if j < i {
                                    assert(chunk_pos_lt(old(self).world_view().chunks_view()[j].pos_view(), chunk));
                                } else {
                                    assert(chunk_pos_lt(chunk, old(self).world_view().chunks_view()[j].pos_view()));
                                }
                            }
                        }
                        self.last_chunk = Some((chunk, None));
                        None
                    },
                }
            },
        }
    }
}

} // verus!
