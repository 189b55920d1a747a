use vstd::prelude::*;

use crate::chunk::slab::{AreaInfo, SliceNavArea};
use crate::chunk::slice_navmesh::{SliceAreaIndex, SliceAreaIndexAllocator};
use crate::coordinate::world::ChunkPosition;
use crate::navigationv2::{
    area_index, area_indices_fit, lemma_node_of_injective, node_of, slices_sorted, ChunkArea,
    SlabArea,
};
use crate::slab::SlabIndex;
use std::collections::HashMap;

verus! {

pub type ChunkId = u64;

/// How far a slab of a chunk has got in loading.
#[derive(Debug, Copy, Clone, PartialEq, Eq, Structural)]
pub enum SlabLoadingStatus {
    /// Not available
    Unloaded,
    /// Has been requested
    Requested,
    /// Terrain is in chunk with isolated occlusion and vertical space (*missing bottom slice*).
    TerrainInWorld,
    /// Was in Done but bottom slab changed, currently processing the update
    Updating,
    /// Bottom slice of and nav has been provided by slab below, so now full nav areas
    /// are available. Internal area links are known, and SlabNavGraph is stored in the chunk
    DoneInIsolation,
    /// All neighbouring slabs are present and inter-slab links are known
    Done,
}

/// Something of a slab: not to be had, not ready yet, or ready.
pub enum SlabThingOrWait<T> {
    Wait,
    Failure,
    Ready(T),
}

/// The number under which a chunk files an area: its slab, slice and index in the slice, each
/// shifted into a range of its own.
pub open spec fn chunk_area_key_int(a: ChunkArea) -> int {
    ((a.slab_idx as int + 0x8000_0000) * 256 + a.slab_area.slice_idx as int) * 256
        + a.slab_area.slice_area.0 as int
}

/// The number under which a chunk files an area, as the key of its map.
pub open spec fn chunk_area_key(a: ChunkArea) -> u64 {
    chunk_area_key_int(a) as u64
}

proof fn lemma_chunk_area_key_bounds(a: ChunkArea)
    ensures
        0 <= chunk_area_key_int(a) < 0x1_0000_0000_0000,
        chunk_area_key(a) as int == chunk_area_key_int(a),
{
    let s = a.slab_idx as int + 0x8000_0000;
    let z = a.slab_area.slice_idx as int;
    assert(0 <= s * 256 + z < 0x100_0000_0000) by (nonlinear_arith)
        requires
            0 <= s < 0x1_0000_0000,
            0 <= z < 256,
    ;
}

fn chunk_area_key_of(a: ChunkArea) -> (k: u64)
    ensures
        k == chunk_area_key(a),
{
    proof {
        lemma_chunk_area_key_bounds(a);
    }
    let s = (a.slab_idx as i64 + 0x8000_0000) as u64;
    proof {
        assert(s * 256 + (a.slab_area.slice_idx as u64) < 0x100_0000_0000) by (nonlinear_arith)
            requires
                s < 0x1_0000_0000,
                a.slab_area.slice_idx < 256,
        ;
    }
    (s * 256 + a.slab_area.slice_idx as u64) * 256 + a.slab_area.slice_area.0 as u64
}

/// Different areas are filed under different numbers.
pub proof fn lemma_chunk_area_key_injective(a: ChunkArea, b: ChunkArea)
    requires
        chunk_area_key(a) == chunk_area_key(b),
    ensures
        a == b,
{
    lemma_chunk_area_key_bounds(a);
    lemma_chunk_area_key_bounds(b);
    let sa = a.slab_idx as int + 0x8000_0000;
    let sb = b.slab_idx as int + 0x8000_0000;
    let xa = sa * 256 + a.slab_area.slice_idx as int;
    let xb = sb * 256 + b.slab_area.slice_idx as int;
    vstd::arithmetic::div_mod::lemma_fundamental_div_mod_converse(
        chunk_area_key_int(a),
        256,
        xa,
        a.slab_area.slice_area.0 as int,
    );
    vstd::arithmetic::div_mod::lemma_fundamental_div_mod_converse(
        chunk_area_key_int(b),
        256,
        xb,
        b.slab_area.slice_area.0 as int,
    );
    vstd::arithmetic::div_mod::lemma_fundamental_div_mod_converse(xa, 256, sa, a.slab_area.slice_idx as int);
    vstd::arithmetic::div_mod::lemma_fundamental_div_mod_converse(xb, 256, sb, b.slab_area.slice_idx as int);
    assert(a.slab_area.slice_area == b.slab_area.slice_area);
    assert(a.slab_area == b.slab_area);
}

/// The loading status of a slab: the one recorded for it, else unloaded.
pub open spec fn status_in(progress: Map<SlabIndex, SlabLoadingStatus>, slab: SlabIndex) -> SlabLoadingStatus {
    if progress.contains_key(slab) {
        progress[slab]
    } else {
        SlabLoadingStatus::Unloaded
    }
}

/// The area that the `p`th of the given areas of a slab is given: its slice and its index
/// among the areas of its slice.
pub open spec fn new_chunk_area(slab: SlabIndex, areas: Seq<SliceNavArea>, p: int) -> ChunkArea {
    ChunkArea {
        slab_idx: slab,
        slab_area: SlabArea {
            slice_idx: areas[p].slice,
            slice_area: SliceAreaIndex(area_index(areas, p) as u8),
        },
    }
}

/// What is kept of the `p`th of the given areas of a slab: its height and range.
pub open spec fn new_area_info(areas: Seq<SliceNavArea>, p: int) -> AreaInfo {
    AreaInfo { height: areas[p].height, range: (areas[p].from, areas[p].to) }
}

/// `after` holds the areas of `before` in other slabs as they were, and for the slab exactly
/// the given areas, each under its slice and its index among the areas of its slice.
pub open spec fn areas_replaced(
    before: Map<ChunkArea, AreaInfo>,
    after: Map<ChunkArea, AreaInfo>,
    slab: SlabIndex,
    areas: Seq<SliceNavArea>,
) -> bool {
    &&& forall|a: ChunkArea|
        a.slab_idx != slab ==> (#[trigger] after.contains_key(a) == before.contains_key(a) && (
        before.contains_key(a) ==> after[a] == before[a]))
    &&& forall|p: int|
        0 <= p < areas.len() ==> after.contains_key(#[trigger] new_chunk_area(slab, areas, p))
            && after[new_chunk_area(slab, areas, p)] == new_area_info(areas, p)
    &&& forall|a: ChunkArea|
        a.slab_idx == slab && #[trigger] after.contains_key(a) ==> exists|p: int|
            0 <= p < areas.len() && a == #[trigger] new_chunk_area(slab, areas, p)
}

/// The navigation state of a chunk: the areas of its slabs with what is known of each, and how
/// far each of its slabs has got in loading.
pub struct Chunk {
    pos: ChunkPosition,
    /// Big info about each area not needed for nav graph, filed under the area's number (see
    /// [chunk_area_key]).
    areas: HashMap<u64, (ChunkArea, AreaInfo)>,
    slab_progress: HashMap<SlabIndex, SlabLoadingStatus>,
}

impl Chunk {
    pub closed spec fn pos_view(&self) -> ChunkPosition {
        self.pos
    }

    /// What is known of each area of the chunk.
    pub closed spec fn areas_view(&self) -> Map<ChunkArea, AreaInfo> {
        Map::new(
            |a: ChunkArea| self.areas@.contains_key(chunk_area_key(a)),
            |a: ChunkArea| self.areas@[chunk_area_key(a)].1,
        )
    }

    /// The loading status recorded for each slab.
    pub closed spec fn progress_view(&self) -> Map<SlabIndex, SlabLoadingStatus> {
        self.slab_progress@
    }

    /// The loading status of a slab.
    pub open spec fn status(&self, slab: SlabIndex) -> SlabLoadingStatus {
        status_in(self.progress_view(), slab)
    }

    /// Every area is filed under its own number.
    pub closed spec fn wf(&self) -> bool {
        forall|k: u64| #[trigger] self.areas@.contains_key(k) ==> chunk_area_key(self.areas@[k].0) == k
    }

    pub fn empty(pos: ChunkPosition) -> (r: Self)
        ensures
            r.wf(),
            r.pos_view() == pos,
            r.areas_view() == Map::<ChunkArea, AreaInfo>::empty(),
            r.progress_view() == Map::<SlabIndex, SlabLoadingStatus>::empty(),
    {
        let r = Chunk { pos, areas: HashMap::new(), slab_progress: HashMap::new() };
        proof {
            assert(r.areas_view() =~= Map::<ChunkArea, AreaInfo>::empty());
        }
        r
    }

    pub fn pos(&self) -> (r: ChunkPosition)
        ensures
            r == self.pos_view(),
    {
        self.pos
    }

    /// The chunk's x in the high half, or'd with its y widened to 64 bits.
    pub fn id(&self) -> (r: ChunkId)
        ensures
            r == ((self.pos_view().0 as u64) << 32u64) | (self.pos_view().1 as u64),
    {
        let ChunkPosition(x, y) = self.pos;
        (x as u64) << 32u64 | (y as u64)
    }

    /// What is known of an area of a slab of the chunk.
    pub fn area_info(&self, slab: SlabIndex, slab_area: SlabArea) -> (r: Option<AreaInfo>)
        requires
            self.wf(),
        ensures
            r == (if self.areas_view().contains_key(ChunkArea { slab_idx: slab, slab_area }) {
                Some(self.areas_view()[ChunkArea { slab_idx: slab, slab_area }])
            } else {
                None
            }),
    {
        let k = chunk_area_key_of(ChunkArea { slab_idx: slab, slab_area });
        match self.areas.get(&k) {
            Some(entry) => Some(entry.1),
            None => None,
        }
    }
}

impl Chunk {
    /// Every area of the chunk with what is known of it, once each, in no particular order.
    pub fn iter_areas_with_info(&self) -> (r: Vec<(ChunkArea, AreaInfo)>)
        requires
            self.wf(),
        ensures
            r@.no_duplicates(),
            forall|p: (ChunkArea, AreaInfo)|
                #[trigger] r@.contains(p) <==> self.areas_view().contains_key(p.0)
                    && self.areas_view()[p.0] == p.1,
    {
        let ghost m = self.areas@;
        let ghost mut visited: Set<u64> = Set::empty();
        let ghost mut keys: Seq<u64> = Seq::empty();
        let mut out: Vec<(ChunkArea, AreaInfo)> = Vec::new();
        for pair in it: self.areas.iter()
            invariant
                m == self.areas@,
                self.wf(),
                it.seq().no_duplicates(),
                it.seq().len() == m.dom().len(),
                forall|i: int|
                    0 <= i < it.seq().len() ==> #[trigger] m.contains_key(*it.seq()[i].0)
                        && m[*it.seq()[i].0] == *it.seq()[i].1,
                visited.finite(),
                visited.len() == it.index(),
                visited.subset_of(m.dom()),
                forall|k: u64|
                    #[trigger] visited.contains(k) <==> exists|i: int|
                        0 <= i < it.index() && *it.seq()[i].0 == k,
                keys.len() == it.index(),
                forall|i: int| 0 <= i < it.index() ==> #[trigger] keys[i] == *it.seq()[i].0,
                forall|k: u64| #[trigger] visited.contains(k) <==> exists|i: int| 0 <= i < keys.len() && keys[i] == k,
                forall|i: int|
                    0 <= i < keys.len() ==> m.contains_key(keys[i]) && #[trigger] out@[i] == m[keys[i]],
                out@.len() == it.index(),
                forall|i: int| 0 <= i < it.index() ==> #[trigger] out@[i] == *it.seq()[i].1,
        {
            let ghost i0 = it.index() as int;
            let ghost sq = it.seq();
            assert(pair == sq[i0]);
            let (k, entry) = pair;
            proof {
                let k0 = *k;
                assert(m.contains_key(k0));
                if visited.contains(k0) {
                    let j = choose|j: int| 0 <= j < i0 && *sq[j].0 == k0;
                    assert(*sq[j].1 == *sq[i0].1);
                    assert(sq[j] == sq[i0]);
                }
                visited = visited.insert(k0);
                assert forall|k: u64| #[trigger] visited.contains(k) <==> exists|i: int|
                    0 <= i < i0 + 1 && *sq[i].0 == k by {
                    if k == k0 {
                        assert(*sq[i0].0 == k);
                    }
                    if (exists|i: int| 0 <= i < i0 + 1 && *sq[i].0 == k) && k != k0 {
                        let i = choose|i: int| 0 <= i < i0 + 1 && *sq[i].0 == k;
                        assert(i < i0);
                    }
                }
                let keys0 = keys;
                keys = keys.push(k0);
                assert forall|x: u64| #[trigger] visited.contains(x) <==> exists|i: int| 0 <= i < keys.len() && keys[i] == x by {
                    if x == k0 {
                        assert(keys[keys.len() - 1] == x);
                    } else if exists|i: int| 0 <= i < keys.len() && keys[i] == x {
                        let i = choose|i: int| 0 <= i < keys.len() && keys[i] == x;
                        assert(keys0[i] == x);
                    } else if visited.contains(x) {
                        let i = choose|i: int| 0 <= i < keys0.len() && keys0[i] == x;
                        assert(keys[i] == x);
                    }
                }
            }
            out.push(*entry);
        }
        proof {
            vstd::set_lib::lemma_subset_equality(visited, m.dom());
            assert forall|i: int| 0 <= i < out@.len() implies #[trigger] m.contains_key(keys[i])
                && out@[i] == m[keys[i]] by {}
            assert forall|k: u64| #[trigger] m.contains_key(k) implies exists|i: int| 0 <= i < keys.len() && keys[i] == k by {
                assert(visited.contains(k));
            }
            assert forall|p: (ChunkArea, AreaInfo)| #[trigger] out@.contains(p) <==> self.areas_view().contains_key(p.0)
                && self.areas_view()[p.0] == p.1 by {
                if out@.contains(p) {
                    let i = choose|i: int| 0 <= i < out@.len() && out@[i] == p;
                    assert(m.contains_key(keys[i]));
                    assert(chunk_area_key(p.0) == keys[i]);
                }
                if self.areas_view().contains_key(p.0) && self.areas_view()[p.0] == p.1 {
                    let k = chunk_area_key(p.0);
                    let i = choose|i: int| 0 <= i < keys.len() && keys[i] == k;
                    assert(out@[i] == m[k]);
                    assert(m[k].0 == p.0) by {
                        lemma_chunk_area_key_injective(m[k].0, p.0);
                    }
                    assert(out@[i] == p);
                }
            }
            assert forall|i: int, j: int| 0 <= i < j < out@.len() implies out@[i] != out@[j] by {
                if out@[i] == out@[j] {
                    assert(keys[i] == chunk_area_key(out@[i].0));
                    assert(keys[j] == chunk_area_key(out@[j].0));
                }
            }
        }
        out
    }

    /// Replaces the areas of a slab with the given ones, slice by slice from the bottom, each
    /// given its index among the areas of its slice (see [areas_replaced]); the other slabs'
    /// areas stay.
    pub fn replace_all_slice_areas(&mut self, slab: SlabIndex, new_areas: &[SliceNavArea])
        requires
            old(self).wf(),
            slices_sorted(new_areas@),
            area_indices_fit(new_areas@),
        ensures
            final(self).wf(),
            areas_replaced(old(self).areas_view(), final(self).areas_view(), slab, new_areas@),
            final(self).pos_view() == old(self).pos_view(),
            final(self).progress_view() == old(self).progress_view(),
    {
        let ghost m = self.areas@;
        let ghost na = new_areas@;
        // remove all for this slab
        let mut kept: HashMap<u64, (ChunkArea, AreaInfo)> = HashMap::new();
        let ghost mut visited: Set<u64> = Set::empty();
        for pair in it: self.areas.iter()
            invariant
                m == self.areas@,
                self.wf(),
                it.seq().no_duplicates(),
                it.seq().len() == m.dom().len(),
                forall|i: int|
                    0 <= i < it.seq().len() ==> #[trigger] m.contains_key(*it.seq()[i].0)
                        && m[*it.seq()[i].0] == *it.seq()[i].1,
                visited.finite(),
                visited.len() == it.index(),
                visited.subset_of(m.dom()),
                forall|k: u64|
                    #[trigger] visited.contains(k) <==> exists|i: int|
                        0 <= i < it.index() && *it.seq()[i].0 == k,
                forall|k: u64|
                    #[trigger] kept@.contains_key(k) <==> visited.contains(k) && m[k].0.slab_idx != slab,
                forall|k: u64| #[trigger] kept@.contains_key(k) ==> kept@[k] == m[k],
        {
            let ghost i0 = it.index() as int;
            let ghost sq = it.seq();
            assert(pair == sq[i0]);
            let (k, entry) = pair;
            proof {
                let k0 = *k;
                assert(m.contains_key(k0));
                if visited.contains(k0) {
                    let j = choose|j: int| 0 <= j < i0 && *sq[j].0 == k0;
                    assert(*sq[j].1 == *sq[i0].1);
                    assert(sq[j] == sq[i0]);
                }
                visited = visited.insert(k0);
                assert forall|x: u64| #[trigger] visited.contains(x) <==> exists|i: int|
                    0 <= i < i0 + 1 && *sq[i].0 == x by {
                    if x == k0 {
                        assert(*sq[i0].0 == x);
                    }
                    if (exists|i: int| 0 <= i < i0 + 1 && *sq[i].0 == x) && x != k0 {
                        let i = choose|i: int| 0 <= i < i0 + 1 && *sq[i].0 == x;
                        assert(i < i0);
                    }
                }
            }
            if entry.0.slab_idx != slab {
                kept.insert(*k, *entry);
            }
        }
        proof {
            vstd::set_lib::lemma_subset_equality(visited, m.dom());
        }
        let mut area_alloc = SliceAreaIndexAllocator::default();
        let mut i: usize = 0;
        while i < new_areas.len()
            invariant
                i <= na.len(),
                na == new_areas@,
                slices_sorted(na),
                area_indices_fit(na),
                i == 0 ==> area_alloc@ == (None::<u8>, 0u8),
                i > 0 ==> area_alloc@ == (Some(na[i - 1].slice), area_index(na, i - 1) as u8),
                forall|k: u64| #[trigger] kept@.contains_key(k) ==> chunk_area_key(kept@[k].0) == k,
                forall|a: ChunkArea|
                    a.slab_idx != slab ==> (#[trigger] kept@.contains_key(chunk_area_key(a)) == (
                    m.contains_key(chunk_area_key(a))) && (m.contains_key(chunk_area_key(a))
                        ==> kept@[chunk_area_key(a)] == m[chunk_area_key(a)])),
                forall|p: int|
                    0 <= p < i ==> kept@.contains_key(chunk_area_key(#[trigger] new_chunk_area(slab, na, p)))
                        && kept@[chunk_area_key(new_chunk_area(slab, na, p))] == (
                        new_chunk_area(slab, na, p),
                        new_area_info(na, p),
                    ),
                forall|k: u64|
                    #[trigger] kept@.contains_key(k) && kept@[k].0.slab_idx == slab ==> exists|p: int|
                        0 <= p < i && kept@[k].0 == #[trigger] new_chunk_area(slab, na, p),
                forall|k: u64| #[trigger] m.contains_key(k) ==> chunk_area_key(m[k].0) == k,
            decreases na.len() - i,
        {
            let a = new_areas[i];
            proof {
                assert(area_index(na, i as int) < 256);
                if i > 0 {
                    assert(na[i - 1].slice <= na[i as int].slice);
                    if na[i - 1].slice == na[i as int].slice {
                        assert(area_index(na, i as int) == area_index(na, i - 1) + 1);
                    }
                }
            }
            let idx = area_alloc.allocate(a.slice);
            let ca = ChunkArea { slab_idx: slab, slab_area: SlabArea { slice_idx: a.slice, slice_area: idx } };
            let info = AreaInfo { height: a.height, range: (a.from, a.to) };
            proof {
                assert(ca == new_chunk_area(slab, na, i as int));
            }
            let key = chunk_area_key_of(ca);
            let ghost kept0 = kept@;
            kept.insert(key, (ca, info));
            proof {
                assert forall|b: ChunkArea| b.slab_idx != slab implies chunk_area_key(b) != key by {
                    if chunk_area_key(b) == key {
                        lemma_chunk_area_key_injective(b, ca);
                    }
                }
                assert forall|p: int| 0 <= p < i + 1 implies kept@.contains_key(
                    chunk_area_key(#[trigger] new_chunk_area(slab, na, p)),
                ) && kept@[chunk_area_key(new_chunk_area(slab, na, p))] == (
                    new_chunk_area(slab, na, p),
                    new_area_info(na, p),
                ) by {
                    if p < i {
                        if chunk_area_key(new_chunk_area(slab, na, p)) == key {
                            lemma_chunk_area_key_injective(new_chunk_area(slab, na, p), ca);
                            assert(node_of(na, p) == node_of(na, i as int));
                            lemma_node_of_injective(na, p, i as int);
                        }
                    }
                }
                assert forall|k: u64| #[trigger] kept@.contains_key(k) && kept@[k].0.slab_idx == slab implies exists|p: int|
                    0 <= p < i + 1 && kept@[k].0 == #[trigger] new_chunk_area(slab, na, p) by {
                    if k == key {
                        assert(kept@[k].0 == new_chunk_area(slab, na, i as int));
                    } else {
                        let p = choose|p: int| 0 <= p < i && kept0[k].0 == #[trigger] new_chunk_area(slab, na, p);
                    }
                }
            }
            i = i + 1;
        }
        self.areas = kept;
        proof {
            assert forall|a: ChunkArea| a.slab_idx != slab implies (#[trigger] self.areas_view().contains_key(a)
                == old(self).areas_view().contains_key(a) && (old(self).areas_view().contains_key(a)
                ==> self.areas_view()[a] == old(self).areas_view()[a])) by {}
            assert forall|p: int| 0 <= p < na.len() implies self.areas_view().contains_key(
                #[trigger] new_chunk_area(slab, na, p),
            ) && self.areas_view()[new_chunk_area(slab, na, p)] == new_area_info(na, p) by {}
            assert forall|a: ChunkArea| a.slab_idx == slab && #[trigger] self.areas_view().contains_key(a)
                implies exists|p: int| 0 <= p < na.len() && a == #[trigger] new_chunk_area(slab, na, p) by {
                let k = chunk_area_key(a);
                let p = choose|p: int| 0 <= p < na.len() && self.areas@[k].0 == #[trigger] new_chunk_area(slab, na, p);
                lemma_chunk_area_key_injective(self.areas@[k].0, a);
            }
        }
    }
}

/// The slab's status counts as loading: recorded, not unloaded, and not done unless
/// `include_done`.
pub open spec fn listed_status(status: SlabLoadingStatus, include_done: bool) -> bool {
    status != SlabLoadingStatus::Unloaded && (include_done || status != SlabLoadingStatus::Done)
}

impl Chunk {
    fn update_slab_status(&mut self, slab: SlabIndex, state: SlabLoadingStatus)
        ensures
            final(self).progress_view() == old(self).progress_view().insert(slab, state),
            final(self).areas_view() == old(self).areas_view(),
            final(self).pos_view() == old(self).pos_view(),
            old(self).wf() ==> final(self).wf(),
    {
        self.slab_progress.insert(slab, state);
        proof {
            assert(self.areas_view() =~= old(self).areas_view());
        }
    }

    /// Does not notify
    fn update_slabs_status(&mut self, slabs: &[SlabIndex], state: SlabLoadingStatus)
        ensures
            forall|s: SlabIndex|
                #[trigger] final(self).status(s) == (if slabs@.contains(s) {
                    state
                } else {
                    old(self).status(s)
                }),
            forall|s: SlabIndex|
                #[trigger] final(self).progress_view().contains_key(s) == (slabs@.contains(s)
                    || old(self).progress_view().contains_key(s)),
            final(self).areas_view() == old(self).areas_view(),
            final(self).pos_view() == old(self).pos_view(),
            old(self).wf() ==> final(self).wf(),
    {
        let mut i: usize = 0;
        while i < slabs.len()
            invariant
                i <= slabs@.len(),
                forall|s: SlabIndex|
                    #[trigger] self.status(s) == (if slabs@.subrange(0, i as int).contains(s) {
                        state
                    } else {
                        old(self).status(s)
                    }),
                forall|s: SlabIndex|
                    #[trigger] self.progress_view().contains_key(s) == (slabs@.subrange(0, i as int).contains(s)
                        || old(self).progress_view().contains_key(s)),
                self.areas_view() == old(self).areas_view(),
                self.pos_view() == old(self).pos_view(),
                old(self).wf() ==> self.wf(),
            decreases slabs@.len() - i,
        {
            let ghost pre = *self;
            self.update_slab_status(slabs[i], state);
            proof {
                let s0 = slabs@.subrange(0, i as int);
                let s1 = slabs@.subrange(0, i + 1);
                assert forall|s: SlabIndex| #[trigger] self.status(s) == (if s == slabs@[i as int] {
                    state
                } else {
                    pre.status(s)
                }) by {}
                assert forall|s: SlabIndex| #[trigger] s1.contains(s) == (s0.contains(s) || s == slabs@[i as int]) by {
                    if s1.contains(s) {
                        let j = choose|j: int| 0 <= j < s1.len() && s1[j] == s;
                        if j < i {
                            assert(s0[j] == s);
                        }
                    }
                    if s0.contains(s) {
                        let j = choose|j: int| 0 <= j < s0.len() && s0[j] == s;
                        assert(s1[j] == s);
                    }
                    if s == slabs@[i as int] {
                        assert(s1[i as int] == s);
                    }
                }
            }
            i = i + 1;
        }
        proof {
            assert(slabs@.subrange(0, slabs@.len() as int) =~= slabs@);
        }
    }

    pub fn mark_slab_requested(&mut self, slab: SlabIndex)
        ensures
            final(self).progress_view() == old(self).progress_view().insert(
                slab,
                SlabLoadingStatus::Requested,
            ),
            final(self).areas_view() == old(self).areas_view(),
            final(self).pos_view() == old(self).pos_view(),
            old(self).wf() ==> final(self).wf(),
    {
        self.update_slab_status(slab, SlabLoadingStatus::Requested);
        // no notification necessary, nothing waits for a slab to be requested
    }

    pub fn mark_slabs_requested(&mut self, slabs: &[SlabIndex])
        ensures
            forall|s: SlabIndex|
                #[trigger] final(self).status(s) == (if slabs@.contains(s) {
                    SlabLoadingStatus::Requested
                } else {
                    old(self).status(s)
                }),
            forall|s: SlabIndex|
                #[trigger] final(self).progress_view().contains_key(s) == (slabs@.contains(s)
                    || old(self).progress_view().contains_key(s)),
            final(self).areas_view() == old(self).areas_view(),
            final(self).pos_view() == old(self).pos_view(),
            old(self).wf() ==> final(self).wf(),
    {
        self.update_slabs_status(slabs, SlabLoadingStatus::Requested);
        // no notification necessary, nothing waits for a slab to be requested
    }

    /// The slab's terrain is in the chunk; waiters on the slab are to be told.
    pub fn mark_slab_as_in_world(&mut self, slab: SlabIndex)
        ensures
            final(self).progress_view() == old(self).progress_view().insert(
                slab,
                SlabLoadingStatus::TerrainInWorld,
            ),
            final(self).areas_view() == old(self).areas_view(),
            final(self).pos_view() == old(self).pos_view(),
            old(self).wf() ==> final(self).wf(),
    {
        self.update_slab_status(slab, SlabLoadingStatus::TerrainInWorld);
    }

    /// The slab's areas and their links within it are known; waiters on the slab are to be
    /// told.
    pub fn mark_slab_as_done_in_isolation(&mut self, slab: SlabIndex)
        ensures
            final(self).progress_view() == old(self).progress_view().insert(
                slab,
                SlabLoadingStatus::DoneInIsolation,
            ),
            final(self).areas_view() == old(self).areas_view(),
            final(self).pos_view() == old(self).pos_view(),
            old(self).wf() ==> final(self).wf(),
    {
        self.update_slab_status(slab, SlabLoadingStatus::DoneInIsolation);
    }

    pub fn mark_slab_as_updating(&mut self, slab: SlabIndex)
        ensures
            final(self).progress_view() == old(self).progress_view().insert(
                slab,
                SlabLoadingStatus::Updating,
            ),
            final(self).areas_view() == old(self).areas_view(),
            final(self).pos_view() == old(self).pos_view(),
            old(self).wf() ==> final(self).wf(),
    {
        self.update_slab_status(slab, SlabLoadingStatus::Updating);
    }

    /// The slab is fully loaded and linked to its neighbours; waiters on the slab are to be
    /// told.
    pub fn mark_slab_as_done(&mut self, slab: SlabIndex)
        ensures
            final(self).progress_view() == old(self).progress_view().insert(
                slab,
                SlabLoadingStatus::Done,
            ),
            final(self).areas_view() == old(self).areas_view(),
            final(self).pos_view() == old(self).pos_view(),
            old(self).wf() ==> final(self).wf(),
    {
        self.update_slab_status(slab, SlabLoadingStatus::Done);
    }

    fn slab_progress(&self, slab: SlabIndex) -> (r: SlabLoadingStatus)
        ensures
            r == self.status(slab),
    {
        match self.slab_progress.get(&slab) {
            Some(state) => *state,
            None => SlabLoadingStatus::Unloaded,
        }
    }

    /// How far the slab has come in loading.
    pub fn slab_load_status(&self, slab: SlabIndex) -> (r: SlabLoadingStatus)
        ensures
            r == self.status(slab),
    {
        self.slab_progress(slab)
    }

    /// Returns true if slab has not been already requested/loaded or is a placeholder
    pub fn should_slab_be_loaded(&self, slab: SlabIndex) -> (r: bool)
        ensures
            r == (self.status(slab) == SlabLoadingStatus::Unloaded),
    {
        match self.slab_progress(slab) {
            SlabLoadingStatus::Unloaded => {
                // has not been requested, pls load
                true
            },
            _ => false,  // is currently in progress or done, don't request again
        }
    }

    pub fn is_slab_loaded(&self, slab: SlabIndex) -> (r: bool)
        ensures
            r == (self.status(slab) == SlabLoadingStatus::Done),
    {
        match self.slab_progress(slab) {
            SlabLoadingStatus::Done => true,
            _ => false,
        }
    }

    /// Every slab recorded with a status that [listed_status] lists, with its status, once
    /// each, in no particular order.
    fn iter_slabs_filtered(&self, include_done: bool) -> (r: Vec<(SlabIndex, SlabLoadingStatus)>)
        ensures
            r@.no_duplicates(),
            forall|p: (SlabIndex, SlabLoadingStatus)|
                #[trigger] r@.contains(p) <==> self.progress_view().contains_key(p.0)
                    && self.progress_view()[p.0] == p.1 && listed_status(p.1, include_done),
    {
        let ghost m = self.slab_progress@;
        let ghost mut visited: Set<SlabIndex> = Set::empty();
        let ghost mut keys: Seq<SlabIndex> = Seq::empty();
        let mut out: Vec<(SlabIndex, SlabLoadingStatus)> = Vec::new();
        for pair in it: self.slab_progress.iter()
            invariant
                m == self.slab_progress@,
                it.seq().no_duplicates(),
                it.seq().len() == m.dom().len(),
                forall|i: int|
                    0 <= i < it.seq().len() ==> #[trigger] m.contains_key(*it.seq()[i].0)
                        && m[*it.seq()[i].0] == *it.seq()[i].1,
                visited.finite(),
                visited.len() == it.index(),
                visited.subset_of(m.dom()),
                forall|k: SlabIndex|
                    #[trigger] visited.contains(k) <==> exists|i: int|
                        0 <= i < it.index() && *it.seq()[i].0 == k,
                keys.len() == it.index(),
                forall|k: SlabIndex| #[trigger] visited.contains(k) <==> exists|i: int| 0 <= i < keys.len() && keys[i] == k,
                out@.no_duplicates(),
                forall|p: (SlabIndex, SlabLoadingStatus)|
                    #[trigger] out@.contains(p) <==> visited.contains(p.0) && m[p.0] == p.1
                        && listed_status(p.1, include_done),
        {
            let ghost i0 = it.index() as int;
            let ghost sq = it.seq();
            assert(pair == sq[i0]);
            let (k, state) = pair;
            let ghost old_out = out@;
            proof {
                let k0 = *k;
                assert(m.contains_key(k0));
                let was_visited = visited.contains(k0);
                if was_visited {
                    let j = choose|j: int| 0 <= j < i0 && *sq[j].0 == k0;
                    assert(*sq[j].1 == *sq[i0].1);
                    assert(sq[j] == sq[i0]);
                }
                visited = visited.insert(k0);
                assert forall|x: SlabIndex| #[trigger] visited.contains(x) <==> exists|i: int|
                    0 <= i < i0 + 1 && *sq[i].0 == x by {
                    if x == k0 {
                        assert(*sq[i0].0 == x);
                    }
                    if (exists|i: int| 0 <= i < i0 + 1 && *sq[i].0 == x) && x != k0 {
                        let i = choose|i: int| 0 <= i < i0 + 1 && *sq[i].0 == x;
                        assert(i < i0);
                    }
                }
                let keys0 = keys;
                keys = keys.push(k0);
                assert forall|x: SlabIndex| #[trigger] visited.contains(x) <==> exists|i: int| 0 <= i < keys.len() && keys[i] == x by {
                    if x == k0 {
                        assert(keys[keys.len() - 1] == x);
                    } else if exists|i: int| 0 <= i < keys.len() && keys[i] == x {
                        let i = choose|i: int| 0 <= i < keys.len() && keys[i] == x;
                        assert(keys0[i] == x);
                    } else if visited.contains(x) {
                        let i = choose|i: int| 0 <= i < keys0.len() && keys0[i] == x;
                        assert(keys[i] == x);
                    }
                }
            }
            let keep = match *state {
                SlabLoadingStatus::Unloaded => false,
                SlabLoadingStatus::Done => include_done,
                _ => true,
            };
            if keep {
                out.push((*k, *state));
                proof {
                    let x = (*k, *state);
                    assert forall|p: (SlabIndex, SlabLoadingStatus)| old_out.contains(p) implies p.0 != *k by {}
                    assert(!old_out.contains(x));
                    assert forall|a: int, b: int| 0 <= a < b < out@.len() implies out@[a] != out@[b] by {
                        if b == out@.len() - 1 {
                            assert(old_out[a] == out@[a]);
                        } else {
                            assert(old_out[a] == out@[a] && old_out[b] == out@[b]);
                        }
                    }
                    assert forall|p: (SlabIndex, SlabLoadingStatus)| #[trigger] out@.contains(p) <==> visited.contains(p.0)
                        && m[p.0] == p.1 && listed_status(p.1, include_done) by {
                        if out@.contains(p) {
                            let j = choose|j: int| 0 <= j < out@.len() && out@[j] == p;
                            if j < old_out.len() {
                                assert(old_out.contains(p));
                            }
                        }
                        if old_out.contains(p) {
                            let j = choose|j: int| 0 <= j < old_out.len() && old_out[j] == p;
                            assert(out@[j] == p);
                        }
                        if p == x {
                            assert(out@[out@.len() - 1] == p);
                        }
                    }
                }
            } else {
                proof {
                    assert forall|p: (SlabIndex, SlabLoadingStatus)| #[trigger] out@.contains(p) <==> visited.contains(p.0)
                        && m[p.0] == p.1 && listed_status(p.1, include_done) by {
                        if p.0 == *k {
                            if old_out.contains(p) {
                                assert(visited.contains(p.0));
                            }
                        }
                    }
                }
            }
        }
        proof {
            vstd::set_lib::lemma_subset_equality(visited, m.dom());
        }
        out
    }

    pub fn iter_loading_slabs(&self) -> (r: Vec<(SlabIndex, SlabLoadingStatus)>)
        ensures
            r@.no_duplicates(),
            forall|p: (SlabIndex, SlabLoadingStatus)|
                #[trigger] r@.contains(p) <==> self.progress_view().contains_key(p.0)
                    && self.progress_view()[p.0] == p.1 && listed_status(p.1, false),
    {
        self.iter_slabs_filtered(false)
    }

    /// All states except unloaded
    pub fn iter_slabs(&self) -> (r: Vec<(SlabIndex, SlabLoadingStatus)>)
        ensures
            r@.no_duplicates(),
            forall|p: (SlabIndex, SlabLoadingStatus)|
                #[trigger] r@.contains(p) <==> self.progress_view().contains_key(p.0)
                    && self.progress_view()[p.0] == p.1 && listed_status(p.1, true),
    {
        self.iter_slabs_filtered(true)
    }

    /// The areas of the slab with what is known of each, once its areas are known; in no
    /// particular order.
    pub fn get_slab_areas_or_wait(&self, slab: SlabIndex) -> (r: SlabThingOrWait<Vec<(ChunkArea, AreaInfo)>>)
        requires
            self.wf(),
        ensures
            self.status(slab) == SlabLoadingStatus::Unloaded <==> r is Failure,
            (self.status(slab) == SlabLoadingStatus::Requested || self.status(slab)
                == SlabLoadingStatus::TerrainInWorld || self.status(slab)
                == SlabLoadingStatus::Updating) <==> r is Wait,
            r matches SlabThingOrWait::Ready(v) ==> v@.no_duplicates() && forall|p: (ChunkArea, AreaInfo)|
                #[trigger] v@.contains(p) <==> p.0.slab_idx == slab && self.areas_view().contains_key(p.0)
                    && self.areas_view()[p.0] == p.1,
    {
        match self.slab_progress(slab) {
            SlabLoadingStatus::Unloaded => SlabThingOrWait::Failure,
            SlabLoadingStatus::Requested | SlabLoadingStatus::TerrainInWorld | SlabLoadingStatus::Updating => SlabThingOrWait::Wait,
            SlabLoadingStatus::DoneInIsolation | SlabLoadingStatus::Done => {
                let all = self.iter_areas_with_info();
                let mut out: Vec<(ChunkArea, AreaInfo)> = Vec::new();
                let mut i: usize = 0;
                while i < all.len()
                    invariant
                        i <= all@.len(),
                        all@.no_duplicates(),
                        out@.no_duplicates(),
                        forall|p: (ChunkArea, AreaInfo)|
                            #[trigger] out@.contains(p) <==> p.0.slab_idx == slab
                                && all@.subrange(0, i as int).contains(p),
                    decreases all@.len() - i,
                {
                    let p = all[i];
                    let ghost s0 = all@.subrange(0, i as int);
                    let ghost s1 = all@.subrange(0, i + 1);
                    proof {
                        assert forall|q: (ChunkArea, AreaInfo)| #[trigger] s1.contains(q) == (s0.contains(q) || q == p) by {
                            if s1.contains(q) {
                                let j = choose|j: int| 0 <= j < s1.len() && s1[j] == q;
                                if j < i {
                                    assert(s0[j] == q);
                                }
                            }
                            if s0.contains(q) {
                                let j = choose|j: int| 0 <= j < s0.len() && s0[j] == q;
                                assert(s1[j] == q);
                            }
                            if q == p {
                                assert(s1[i as int] == q);
                            }
                        }
                        assert(!s0.contains(p)) by {
                            if s0.contains(p) {
                                let j = choose|j: int| 0 <= j < s0.len() && s0[j] == p;
                                assert(all@[j] == all@[i as int]);
                            }
                        }
                    }
                    if p.0.slab_idx == slab {
                        let ghost old_out = out@;
                        out.push(p);
                        proof {
                            assert(!old_out.contains(p));
                            assert forall|a: int, b: int| 0 <= a < b < out@.len() implies out@[a] != out@[b] by {
                                if b == out@.len() - 1 {
                                    assert(old_out[a] == out@[a]);
                                } else {
                                    assert(old_out[a] == out@[a] && old_out[b] == out@[b]);
                                }
                            }
                            assert forall|q: (ChunkArea, AreaInfo)| #[trigger] out@.contains(q) <==> q.0.slab_idx == slab
                                && s1.contains(q) by {
                                if out@.contains(q) {
                                    let j = choose|j: int| 0 <= j < out@.len() && out@[j] == q;
                                    if j < old_out.len() {
                                        assert(old_out.contains(q));
                                    }
                                }
                                if old_out.contains(q) {
                                    let j = choose|j: int| 0 <= j < old_out.len() && old_out[j] == q;
                                    assert(out@[j] == q);
                                }
                                if q == p {
                                    assert(out@[out@.len() - 1] == q);
                                }
                            }
                        }
                    }
                    i = i + 1;
                }
                proof {
                    assert(all@.subrange(0, all@.len() as int) =~= all@);
                }
                SlabThingOrWait::Ready(out)
            },
        }
    }
}

/// Replacing a slab's areas a second time with the same areas changes nothing.
pub proof fn lemma_replace_areas_twice(
    before: Map<ChunkArea, AreaInfo>,
    once: Map<ChunkArea, AreaInfo>,
    twice: Map<ChunkArea, AreaInfo>,
    slab: SlabIndex,
    areas: Seq<SliceNavArea>,
)
    requires
        areas_replaced(before, once, slab, areas),
        areas_replaced(once, twice, slab, areas),
    ensures
        twice == once,
{
    assert forall|a: ChunkArea| #[trigger] twice.contains_key(a) == once.contains_key(a) by {
        if a.slab_idx == slab {
            if twice.contains_key(a) {
                let p = choose|p: int| 0 <= p < areas.len() && a == #[trigger] new_chunk_area(slab, areas, p);
                assert(once.contains_key(new_chunk_area(slab, areas, p)));
            }
            if once.contains_key(a) {
                let p = choose|p: int| 0 <= p < areas.len() && a == #[trigger] new_chunk_area(slab, areas, p);
                assert(twice.contains_key(new_chunk_area(slab, areas, p)));
            }
        }
    }
    assert forall|a: ChunkArea| #[trigger] twice.contains_key(a) implies twice[a] == once[a] by {
        if a.slab_idx == slab {
            let p = choose|p: int| 0 <= p < areas.len() && a == #[trigger] new_chunk_area(slab, areas, p);
            assert(twice[new_chunk_area(slab, areas, p)] == new_area_info(areas, p));
            assert(once[new_chunk_area(slab, areas, p)] == new_area_info(areas, p));
        }
    }
    assert(twice =~= once);
}

} // verus!
