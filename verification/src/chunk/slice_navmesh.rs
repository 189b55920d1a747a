use vstd::prelude::*;

verus! {

/// Area index in a slice, all values are possible to allow for every block in a slice of 256 to
/// have a separate area
#[derive(Debug, Copy, Clone, Eq, PartialEq, Hash, Ord, PartialOrd, Structural)]
pub struct SliceAreaIndex(pub u8);

impl SliceAreaIndex {
    /// The first area of a slice.
    pub fn default_index() -> (r: Self)
        ensures
            r.0 == 0,
    {
        SliceAreaIndex(0)
    }
}

/// Hands out area indices slice by slice: counting up from 0 within a slice, and from 0
/// again when a new slice starts.
pub struct SliceAreaIndexAllocator {
    slice: Option<u8>,
    current: u8,
}

impl View for SliceAreaIndexAllocator {
    /// The slice being allocated for, if any, and the last index handed out in it.
    type V = (Option<u8>, u8);

    closed spec fn view(&self) -> (Option<u8>, u8) {
        (self.slice, self.current)
    }
}

impl Default for SliceAreaIndexAllocator {
    fn default() -> (r: Self)
        ensures
            r@ == (None::<u8>, 0u8),
    {
        SliceAreaIndexAllocator { slice: None, current: 0 }
    }
}

impl SliceAreaIndexAllocator {
    /// The next area index in the given slice: one more than the last one handed out if the
    /// slice is the current one, else 0, the slice becoming the current one.
    pub fn allocate(&mut self, slice: u8) -> (r: SliceAreaIndex)
        requires
            old(self)@.0 == Some(slice) ==> old(self)@.1 < u8::MAX,
            old(self)@.0 is Some && old(self)@.0 != Some(slice) ==> slice > old(self)@.0->0,
        ensures
            old(self)@.0 == Some(slice) ==> r.0 == old(self)@.1 + 1,
            old(self)@.0 != Some(slice) ==> r.0 == 0,
            final(self)@ == (Some(slice), r.0),
            allocate_step(old(self)@, slice, r.0, final(self)@),
    {
        if self.slice == Some(slice) {
            self.current = self.current + 1;
        } else {
            self.slice = Some(slice);
            self.current = 0;
        }
        SliceAreaIndex(self.current)
    }
}

/// How many of the slices in `s` are `v`.
pub open spec fn count_slice(s: Seq<u8>, v: u8) -> nat
    decreases s.len(),
{
    if s.len() == 0 {
        0
    } else {
        count_slice(s.drop_last(), v) + if s.last() == v {
            1nat
        } else {
            0nat
        }
    }
}

/// One call of [SliceAreaIndexAllocator::allocate] for `slice`, from the allocator's view
/// `before` to `after`, returning index `r`.
pub open spec fn allocate_step(before: (Option<u8>, u8), slice: u8, r: u8, after: (Option<u8>, u8)) -> bool {
    &&& before.0 == Some(slice) ==> r == before.1 + 1
    &&& before.0 != Some(slice) ==> r == 0
    &&& after == (Some(slice), r)
}

/// Over a run of allocations from a fresh allocator, for slices that never go down, each
/// call returns how many earlier calls were for the same slice: indices count up from 0 within
/// a slice, and start again at 0 for each new slice.
pub proof fn lemma_allocations_count(slices: Seq<u8>, states: Seq<(Option<u8>, u8)>, results: Seq<u8>)
    requires
        states.len() == slices.len() + 1,
        results.len() == slices.len(),
        states[0] == (None::<u8>, 0u8),
        forall|i: int| 0 <= i < slices.len() ==> #[trigger] allocate_step(states[i], slices[i], results[i], states[i + 1]),
        forall|i: int, j: int| 0 <= i < j < slices.len() ==> slices[i] <= slices[j],
    ensures
        forall|k: int| 0 <= k < slices.len() ==> #[trigger] results[k] == count_slice(slices.take(k), slices[k]),
{
    assert forall|k: int| 0 <= k < slices.len() implies #[trigger] results[k] == count_slice(slices.take(k), slices[k]) by {
        lemma_allocation_at(slices, states, results, k);
    }
}

/// No slice of `s` is `v`.
proof fn lemma_count_absent(s: Seq<u8>, v: u8)
    requires
        forall|i: int| 0 <= i < s.len() ==> s[i] != v,
    ensures
        count_slice(s, v) == 0,
    decreases s.len(),
{
    if s.len() > 0 {
        lemma_count_absent(s.drop_last(), v);
    }
}

proof fn lemma_allocation_at(slices: Seq<u8>, states: Seq<(Option<u8>, u8)>, results: Seq<u8>, k: int)
    requires
        states.len() == slices.len() + 1,
        results.len() == slices.len(),
        states[0] == (None::<u8>, 0u8),
        forall|i: int| 0 <= i < slices.len() ==> #[trigger] allocate_step(states[i], slices[i], results[i], states[i + 1]),
        forall|i: int, j: int| 0 <= i < j < slices.len() ==> slices[i] <= slices[j],
        0 <= k < slices.len(),
    ensures
        results[k] == count_slice(slices.take(k), slices[k]),
        states[k + 1] == (Some(slices[k]), results[k]),
    decreases k,
{
    assert(allocate_step(states[k], slices[k], results[k], states[k + 1]));
    if k == 0 {
        assert(slices.take(0) =~= Seq::<u8>::empty());
    } else {
        lemma_allocation_at(slices, states, results, k - 1);
        let t = slices.take(k);
        assert(t.drop_last() =~= slices.take(k - 1));
        assert(t.last() == slices[k - 1]);
        if slices[k] == slices[k - 1] {
        } else {
            assert forall|i: int| 0 <= i < t.len() implies t[i] != slices[k] by {
                assert(slices[i] <= slices[k - 1]);
            }
            lemma_count_absent(t, slices[k]);
        }
    }
}

/// How a square slice is read and what is done with each rectangle found in it.
pub trait SliceConfig {
    /// Len of 1 edge in square
    const SZ: usize;

    const N: usize = Self::SZ * Self::SZ;

    const FILL_OUTPUT: bool;

    type InputElem: Copy;

    /// The free height above a block, as [SliceConfig::available_height] reads it. An
    /// implementation that Verus checks defines it; by default nothing is known of it.
    closed spec fn spec_available_height(elem: Self::InputElem) -> u8 {
        arbitrary()
    }

    /// The rectangles handed to [SliceConfig::emit] so far, in order: the corners' indices, the
    /// height and the area. An implementation that Verus checks defines it; by default nothing
    /// is known of it.
    closed spec fn emitted(&self) -> Seq<([usize; 2], u8, u8)> {
        arbitrary()
    }

    fn available_height(elem: Self::InputElem) -> (r: u8)
        ensures
            r == Self::spec_available_height(elem),
    ;

    fn emit(&mut self, range: [usize; 2], height: u8, area: u8)
        ensures
            final(self).emitted() == old(self).emitted().push((range, height, area)),
    ;
}

/// A rectangle of blocks found in a slice: the row-major indices of its two inclusive
/// corners (`from` the lowest, `to` the highest), the height every block in it has, and the area it was given.
#[derive(Debug, Copy, Clone, Eq, PartialEq, Structural)]
pub struct SliceRect {
    pub from: usize,
    pub to: usize,
    pub height: u8,
    pub area: u8,
}

/// The block at index `i` of a square of side `sz` lies in the rectangle.
pub open spec fn rect_contains(r: SliceRect, sz: int, i: int) -> bool {
    &&& 0 <= i < sz * sz
    &&& r.from as int % sz <= i % sz <= r.to as int % sz
    &&& r.from as int / sz <= i / sz <= r.to as int / sz
}

/// The rectangle lies inside the square, is not empty, and every block in it has the
/// rectangle's height, which is not zero.
pub open spec fn rect_valid(r: SliceRect, sz: int, heights: Seq<u8>) -> bool {
    &&& r.from <= r.to < sz * sz
    &&& r.from as int % sz <= r.to as int % sz
    &&& r.height > 0
    &&& forall|i: int| #[trigger] rect_contains(r, sz, i) ==> heights[i] == r.height
}

/// The rectangle is as the mesher grows it from its first block over a run of `w` blocks,
/// given which blocks are still free (held by no earlier rectangle): the run lies along the
/// first row, over free blocks of the rectangle's height, and ends at the end of the row, at a
/// block of another height or at a block that is not free; the rectangle then reaches down the
/// rows below for as long as the run's columns keep its height. Either every row down to its
/// last has the height under the whole run, and the next row, if any, breaks it at the run's
/// first column; or the rows before its last have it, and its last row keeps it only up to its
/// last column, the next column breaking it.
pub open spec fn greedy_run(
    r: SliceRect,
    sz: int,
    heights: Seq<u8>,
    free: spec_fn(int) -> bool,
    w: int,
) -> bool {
    let cx = r.from as int % sz;
    let cy = r.from as int / sz;
    let tx = r.to as int % sz;
    let ty = r.to as int / sz;
    let ch = r.height;
    &&& 1 <= w
    &&& cx + w <= sz
    &&& forall|t: int|
        0 <= t < w ==> heights[#[trigger] (cy * sz + cx + t)] == ch && free(cy * sz + cx + t)
    &&& (cx + w == sz || heights[cy * sz + cx + w] != ch || !free(cy * sz + cx + w))
    &&& ({
        ||| {
            &&& tx == cx + w - 1
            &&& forall|y: int, x: int|
                cy < y <= ty && cx <= x < cx + w ==> #[trigger] heights[y * sz + x] == ch
            &&& (ty == sz - 1 || heights[(ty + 1) * sz + cx] != ch)
        }
        ||| {
            &&& cx <= tx < cx + w - 1
            &&& cy < ty
            &&& forall|y: int, x: int|
                cy < y < ty && cx <= x < cx + w ==> #[trigger] heights[y * sz + x] == ch
            &&& forall|x: int| cx <= x <= tx ==> #[trigger] heights[ty * sz + x] == ch
            &&& heights[ty * sz + tx + 1] != ch
        }
    })
}

/// The rectangle is grown as [greedy_run] says over some run.
pub open spec fn greedy_rect(r: SliceRect, sz: int, heights: Seq<u8>, free: spec_fn(int) -> bool) -> bool {
    exists|w: int| #[trigger] greedy_run(r, sz, heights, free, w)
}

/// No rectangle before the `j`th holds block `i`.
pub open spec fn free_for(rects: Seq<SliceRect>, j: int, sz: int, i: int) -> bool {
    !exists|j2: int| 0 <= j2 < j && #[trigger] rect_contains(rects[j2], sz, i)
}

/// A rectangle grown as the mesher grows it under one account of which blocks are free is
/// grown the same under another account that agrees on the blocks of the square.
proof fn lemma_greedy_rect_free(
    r: SliceRect,
    sz: int,
    heights: Seq<u8>,
    f1: spec_fn(int) -> bool,
    f2: spec_fn(int) -> bool,
)
    requires
        sz > 0,
        r.from < sz * sz,
        greedy_rect(r, sz, heights, f1),
        forall|i: int| 0 <= i < sz * sz ==> #[trigger] f1(i) == f2(i),
    ensures
        greedy_rect(r, sz, heights, f2),
{
    let cx = r.from as int % sz;
    let cy = r.from as int / sz;
    lemma_index(sz, r.from as int);
    let w = choose|w: int| greedy_run(r, sz, heights, f1, w);
    assert forall|t: int| 0 <= t < w implies f2(#[trigger] (cy * sz + cx + t)) == f1(
        cy * sz + cx + t,
    ) by {
        lemma_cell(sz, cx + t, cy);
    }
    if cx + w < sz {
        lemma_cell(sz, cx + w, cy);
    }
    assert(greedy_run(r, sz, heights, f2, w));
}

/// The rectangle the mesher has just grown, from its run of `w` blocks and the place where the
/// rows below stopped matching it (`end`, none when they never did), is grown as
/// [greedy_rect] says, the free blocks being those not yet marked in `init`.
proof fn lemma_new_rect_greedy(
    r: SliceRect,
    sz: int,
    heights: Seq<u8>,
    init: Seq<bool>,
    cx: int,
    cy: int,
    tx: int,
    ty: int,
    w: int,
    end: Option<(usize, usize)>,
)
    requires
        sz > 0,
        0 <= cx < sz,
        0 <= cy < sz,
        0 <= tx < sz,
        0 <= ty < sz,
        r.from == cy * sz + cx,
        r.to == ty * sz + tx,
        1 <= w,
        cx + w <= sz,
        forall|t: int|
            0 <= t < w ==> !init[cy * sz + cx + t] && #[trigger] heights[cy * sz + cx + t]
                == r.height,
        cx + w == sz || heights[cy * sz + cx + w] != r.height || init[cy * sz + cx + w],
        match end {
            None => {
                &&& tx == cx + w - 1
                &&& ty == sz - 1
                &&& forall|y: int, x: int|
                    cy < y < sz && cx <= x < cx + w ==> #[trigger] heights[y * sz + x] == r.height
            },
            Some((ex, ey)) => {
                &&& cy < ey < sz
                &&& cx <= ex < cx + w
                &&& heights[ey * sz + ex] != r.height
                &&& forall|y: int, x: int|
                    cy < y < ey && cx <= x < cx + w ==> #[trigger] heights[y * sz + x] == r.height
                &&& forall|x: int| cx <= x < ex ==> #[trigger] heights[ey * sz + x] == r.height
                &&& if ex == cx {
                    tx == cx + w - 1 && ty == ey - 1
                } else {
                    tx == ex - 1 && ty == ey
                }
            },
        },
    ensures
        greedy_rect(r, sz, heights, |i: int| !init[i]),
{
    lemma_cell(sz, cx, cy);
    lemma_cell(sz, tx, ty);
    let free = |i: int| !init[i];
    assert(greedy_run(r, sz, heights, free, w));
}

/// The rectangles split the blocks of non-zero height of a square of side `sz` between
/// them, each block in exactly one rectangle; the `j`th rectangle has area `j` (modulo the
/// area type's range); each rectangle starts at the first block, in row-major order, that no
/// earlier rectangle holds, and is grown from there as [greedy_rect] says.
pub open spec fn mesh_partition(rects: Seq<SliceRect>, sz: int, heights: Seq<u8>) -> bool {
    &&& forall|j: int|
        0 <= j < rects.len() ==> rect_valid(#[trigger] rects[j], sz, heights) && rects[j].area
            == j as u8
    &&& forall|i: int|
        0 <= i < sz * sz && heights[i] > 0 ==> exists|j: int|
            0 <= j < rects.len() && #[trigger] rect_contains(rects[j], sz, i)
    &&& forall|i: int, j1: int, j2: int|
        0 <= j1 < rects.len() && 0 <= j2 < rects.len() && #[trigger] rect_contains(
            rects[j1],
            sz,
            i,
        ) && #[trigger] rect_contains(rects[j2], sz, i) ==> j1 == j2
    &&& forall|j1: int, j2: int|
        0 <= j1 < j2 < rects.len() ==> #[trigger] rects[j1].from < #[trigger] rects[j2].from
    &&& forall|j: int, i: int|
        #![trigger rects[j].from, heights[i]]
        0 <= j < rects.len() && 0 <= i < rects[j].from && heights[i] > 0 ==> exists|j2: int|
            0 <= j2 < j && #[trigger] rect_contains(rects[j2], sz, i)
    &&& forall|j: int|
        0 <= j < rects.len() ==> greedy_rect(
            #[trigger] rects[j],
            sz,
            heights,
            |i: int| free_for(rects, j, sz, i),
        )
}

/// What meshing a square slice of side `sz` whose blocks have the given heights leaves
/// behind: the rectangles split the blocks of non-zero height (see [mesh_partition]); exactly
/// the blocks of non-zero height are marked initialised; a block of zero height keeps its
/// output; a block in a rectangle gets the rectangle's area when `fill_output` is set and
/// keeps its output otherwise.
pub open spec fn mesh_outcome(
    sz: int,
    fill_output: bool,
    heights: Seq<u8>,
    rects: Seq<SliceRect>,
    output_before: Seq<SliceAreaIndex>,
    output_after: Seq<SliceAreaIndex>,
    initialised_after: Seq<bool>,
) -> bool {
    &&& mesh_partition(rects, sz, heights)
    &&& initialised_after.len() == sz * sz
    &&& output_after.len() == sz * sz
    &&& forall|i: int| 0 <= i < sz * sz ==> initialised_after[i] == (heights[i] > 0)
    &&& forall|i: int|
        0 <= i < sz * sz && heights[i] == 0 ==> output_after[i] == output_before[i]
    &&& forall|i: int, j: int|
        0 <= j < rects.len() && #[trigger] rect_contains(rects[j], sz, i) ==> output_after[i] == (
        if fill_output {
            SliceAreaIndex(rects[j].area)
        } else {
            output_before[i]
        })
}

/// The height of each block of the input, as the configuration reads it.
pub open spec fn input_heights<C: SliceConfig>(input: Seq<C::InputElem>) -> Seq<u8> {
    Seq::new(input.len(), |i: int| C::spec_available_height(input[i]))
}

/// What the configuration is handed for each rectangle: its corners, height and area.
pub open spec fn emitted_rects(rects: Seq<SliceRect>) -> Seq<([usize; 2], u8, u8)> {
    rects.map_values(|r: SliceRect| ([r.from, r.to], r.height, r.area))
}

/// Initialised array is mask of blocks with an area in output
///
/// Reads each block's height through the configuration, splits the slice into rectangles
/// (see [make_mesh_from_heights]) and hands each rectangle, in the order found, to the
/// configuration.
pub fn make_mesh<C: SliceConfig>(
    cfg: &mut C,
    input: &[C::InputElem],
    output: &mut [SliceAreaIndex],
    initialised: &mut [bool],
)
    requires
        C::N == C::SZ * C::SZ,
        C::SZ * C::SZ + C::SZ <= usize::MAX,
        input@.len() == C::N,
        old(output)@.len() == C::N,
        old(initialised)@.len() == C::N,
        forall|i: int| 0 <= i < C::N ==> !old(initialised)@[i],
    ensures
        exists|rects: Seq<SliceRect>|
            #![trigger emitted_rects(rects)]
            {
                &&& mesh_outcome(
                    C::SZ as int,
                    C::FILL_OUTPUT,
                    input_heights::<C>(input@),
                    rects,
                    old(output)@,
                    final(output)@,
                    final(initialised)@,
                )
                &&& final(cfg).emitted() == old(cfg).emitted() + emitted_rects(rects)
            },
{
    let n = C::N;
    let mut heights: Vec<u8> = Vec::new();
    let mut i: usize = 0;
    while i < n
        invariant
            i <= n,
            n == input@.len(),
            heights@ == input_heights::<C>(input@).subrange(0, i as int),
        decreases n - i,
    {
        let h = C::available_height(input[i]);
        heights.push(h);
        i = i + 1;
        proof {
            assert(heights@ =~= input_heights::<C>(input@).subrange(0, i as int));
        }
    }
    proof {
        assert(heights@ =~= input_heights::<C>(input@));
    }
    let rects = make_mesh_from_heights(C::SZ, C::FILL_OUTPUT, heights.as_slice(), output, initialised);
    let ghost rs = rects@;
    let ghost e0 = cfg.emitted();
    let mut j: usize = 0;
    while j < rects.len()
        invariant
            j <= rects@.len(),
            rs == rects@,
            e0 == old(cfg).emitted(),
            cfg.emitted() == e0 + emitted_rects(rs.subrange(0, j as int)),
        decreases rects@.len() - j,
    {
        let r = rects[j];
        cfg.emit([r.from, r.to], r.height, r.area);
        proof {
            assert(emitted_rects(rs.subrange(0, j + 1)) =~= emitted_rects(rs.subrange(0, j as int)).push(
                ([r.from, r.to], r.height, r.area),
            ));
        }
        j = j + 1;
    }
    proof {
        assert(rs.subrange(0, rs.len() as int) =~= rs);
        assert(mesh_outcome(
            C::SZ as int,
            C::FILL_OUTPUT,
            input_heights::<C>(input@),
            rs,
            old(output)@,
            output@,
            initialised@,
        ));
    }
}

proof fn lemma_cell(sz: int, x: int, y: int)
    requires
        0 <= x < sz,
        0 <= y < sz,
    ensures
        0 <= y * sz + x < sz * sz,
        (y * sz + x) % sz == x,
        (y * sz + x) / sz == y,
{
    assert(0 <= y * sz + x < sz * sz) by (nonlinear_arith)
        requires
            0 <= x < sz,
            0 <= y < sz,
    ;
    vstd::arithmetic::div_mod::lemma_fundamental_div_mod_converse(y * sz + x, sz, y, x);
}

proof fn lemma_index(sz: int, i: int)
    requires
        0 <= i < sz * sz,
        sz > 0,
    ensures
        0 <= i % sz < sz,
        0 <= i / sz < sz,
        i == (i / sz) * sz + i % sz,
{
    vstd::arithmetic::div_mod::lemma_fundamental_div_mod(i, sz);
    vstd::arithmetic::div_mod::lemma_mod_bound(i, sz);
    assert(i == (i / sz) * sz + i % sz) by (nonlinear_arith)
        requires
            i == sz * (i / sz) + i % sz,
    ;
    assert(0 <= i / sz < sz) by (nonlinear_arith)
        requires
            0 <= i < sz * sz,
            sz > 0,
            i == sz * (i / sz) + i % sz,
            0 <= i % sz < sz,
    ;
}

/// Splits the blocks of a square slice of side `sz` into rectangles of equal height, row by
/// row: each rectangle starts at the first block of non-zero height that no rectangle holds
/// yet, extends along its row over the blocks of the same height, then down over the rows
/// that match it. Every block of a rectangle is marked in `initialised` and, when
/// `fill_output` is set, gets the rectangle's area in `output`.
#[verifier::rlimit(50)]
pub fn make_mesh_from_heights(
    sz: usize,
    fill_output: bool,
    heights: &[u8],
    output: &mut [SliceAreaIndex],
    initialised: &mut [bool],
) -> (rects: Vec<SliceRect>)
    requires
        sz * sz + sz <= usize::MAX,
        heights@.len() == sz * sz,
        old(output)@.len() == sz * sz,
        old(initialised)@.len() == sz * sz,
        forall|i: int| 0 <= i < sz * sz ==> !old(initialised)@[i],
    ensures
        mesh_outcome(sz as int, fill_output, heights@, rects@, old(output)@, final(output)@, final(initialised)@),
        mesh_partition(rects@, sz as int, heights@),
        final(initialised)@.len() == sz * sz,
        final(output)@.len() == sz * sz,
        forall|i: int| 0 <= i < sz * sz ==> final(initialised)@[i] == (heights@[i] > 0),
        forall|i: int|
            0 <= i < sz * sz && heights@[i] == 0 ==> final(output)@[i] == old(output)@[i],
        forall|i: int, j: int|
            0 <= j < rects@.len() && #[trigger] rect_contains(rects@[j], sz as int, i)
                ==> final(output)@[i] == (if fill_output {
                SliceAreaIndex(rects@[j].area)
            } else {
                old(output)@[i]
            }),
{
    if sz == 0 {
        // an empty square has no blocks to mesh
        let rects: Vec<SliceRect> = Vec::new();
        assert(mesh_partition(rects@, 0, heights@));
        return rects;
    }
    let n = sz * sz;
    let ghost szi = sz as int;
    let ghost out0 = output@;
    let ghost mut owner: Seq<int> = Seq::new(n as nat, |_i: int| -1int);
    let ghost mut floor: int = 0;
    let mut rects: Vec<SliceRect> = Vec::new();
    let mut next_area: usize = 0;
    let mut next_start_index: usize = 0;

    loop
        invariant
            n == sz * sz,
            szi == sz,
            sz > 0,
            sz * sz + sz <= usize::MAX,
            heights@.len() == n,
            output@.len() == n,
            initialised@.len() == n,
            owner.len() == n,
            out0.len() == n,
            next_area == rects@.len(),
            next_area <= floor <= n,
            next_start_index <= n,
            forall|i: int| 0 <= i < n ==> (#[trigger] initialised@[i] <==> owner[i] != -1),
            forall|i: int| 0 <= i < n ==> #[trigger] owner[i] == -1 || 0 <= owner[i] < rects@.len(),
            forall|i: int, j: int|
                0 <= i < n && 0 <= j < rects@.len() ==> (#[trigger] rect_contains(rects@[j], szi, i)
                    <==> owner[i] == j),
            forall|j: int|
                0 <= j < rects@.len() ==> rect_valid(#[trigger] rects@[j], szi, heights@)
                    && rects@[j].area == j as u8 && rects@[j].from < floor,
            forall|j: int|
                0 <= j < rects@.len() ==> greedy_rect(
                    #[trigger] rects@[j],
                    szi,
                    heights@,
                    |i: int| !(0 <= owner[i] < j),
                ),
            forall|j1: int, j2: int|
                0 <= j1 < j2 < rects@.len() ==> #[trigger] rects@[j1].from
                    < #[trigger] rects@[j2].from,
            forall|j: int, i: int|
                #![trigger rects@[j].from, owner[i]]
                0 <= j < rects@.len() && 0 <= i < rects@[j].from && heights@[i] > 0 ==> 0
                    <= owner[i] < j,
            forall|i: int| 0 <= i < next_start_index ==> #[trigger] initialised@[i],
            forall|i: int| 0 <= i < floor && !#[trigger] initialised@[i] ==> heights@[i] == 0,
            forall|i: int|
                0 <= i < n ==> #[trigger] output@[i] == (if fill_output && owner[i] != -1 {
                    SliceAreaIndex(rects@[owner[i]].area)
                } else {
                    out0[i]
                }),
        ensures
            n == sz * sz,
            heights@.len() == n,
            output@.len() == n,
            initialised@.len() == n,
            owner.len() == n,
            next_area == rects@.len(),
            forall|i: int| 0 <= i < n ==> (#[trigger] initialised@[i] <==> owner[i] != -1),
            forall|i: int| 0 <= i < n ==> #[trigger] owner[i] == -1 || 0 <= owner[i] < rects@.len(),
            forall|i: int, j: int|
                0 <= i < n && 0 <= j < rects@.len() ==> (#[trigger] rect_contains(rects@[j], szi, i)
                    <==> owner[i] == j),
            forall|j: int|
                0 <= j < rects@.len() ==> rect_valid(#[trigger] rects@[j], szi, heights@)
                    && rects@[j].area == j as u8,
            forall|j: int|
                0 <= j < rects@.len() ==> greedy_rect(
                    #[trigger] rects@[j],
                    szi,
                    heights@,
                    |i: int| !(0 <= owner[i] < j),
                ),
            forall|j1: int, j2: int|
                0 <= j1 < j2 < rects@.len() ==> #[trigger] rects@[j1].from
                    < #[trigger] rects@[j2].from,
            forall|j: int, i: int|
                #![trigger rects@[j].from, owner[i]]
                0 <= j < rects@.len() && 0 <= i < rects@[j].from && heights@[i] > 0 ==> 0
                    <= owner[i] < j,
            forall|i: int| 0 <= i < n && !#[trigger] initialised@[i] ==> heights@[i] == 0,
            forall|i: int|
                0 <= i < n ==> #[trigger] output@[i] == (if fill_output && owner[i] != -1 {
                    SliceAreaIndex(rects@[owner[i]].area)
                } else {
                    out0[i]
                }),
        decreases n - floor,
    {
        // find new starting corner
        let mut start = next_start_index;
        while start < n && initialised[start]
            invariant
                next_start_index <= start <= n,
                initialised@.len() == n,
                forall|i: int| 0 <= i < start ==> #[trigger] initialised@[i],
            decreases n - start,
        {
            start = start + 1;
        }
        if start >= n {
            break ;
        }
        next_start_index = start;
        let mut ci = start;
        while ci < n && (initialised[ci] || heights[ci] == 0)
            invariant
                start <= ci <= n,
                initialised@.len() == n,
                heights@.len() == n,
                forall|i: int| start <= i < ci && !#[trigger] initialised@[i] ==> heights@[i] == 0,
            decreases n - ci,
        {
            ci = ci + 1;
        }
        if ci >= n {
            break ;
        }
        let cx = ci % sz;
        let cy = ci / sz;
        let ch = heights[ci];
        proof {
            lemma_index(szi, ci as int);
            assert(ci >= floor);
            assert(cy * sz + sz <= sz * sz) by (nonlinear_arith)
                requires
                    cy < sz,
            ;
        }

        // expand in one direction along the row
        let mut run: usize = 0;
        while run < sz - cx - 1 && !initialised[ci + 1 + run] && heights[ci + 1 + run] == ch
            invariant
                0 <= cx < sz,
                0 <= cy < sz,
                cy * sz + sz <= n,
                ci == cy * sz + cx,
                ci < n,
                n == sz * sz,
                run <= sz - cx - 1,
                initialised@.len() == n,
                heights@.len() == n,
                forall|t: int|
                    0 <= t <= run ==> !#[trigger] initialised@[ci + t] && heights@[ci + t] == ch,
                !initialised@[ci as int],
                heights@[ci as int] == ch,
            decreases sz - cx - 1 - run,
        {
            run = run + 1;
        }
        let sz_x = run + 1;
        proof {
            assert forall|t: int| 0 <= t < sz_x implies !initialised@[cy * szi + cx + t]
                && #[trigger] heights@[cy * szi + cx + t] == ch by {
                assert(0 <= t <= run);
                assert(!initialised@[ci + t] && heights@[ci + t] == ch);
                assert(ci + t == cy * szi + cx + t);
            }
            assert(cx + sz_x == sz || heights@[cy * szi + cx + sz_x] != ch
                || initialised@[cy * szi + cx + sz_x]);
        }

        // no block below the run in its columns belongs to a rectangle yet: a rectangle that
        // held one starts above, so it would hold the block of the run in that column too
        assert forall|y: int, x: int|
            cy < y < sz && cx <= x < cx + sz_x implies !#[trigger] initialised@[y * szi + x] by {
            lemma_cell(szi, x, y);
            lemma_cell(szi, x, cy as int);
            let i = y * szi + x;
            if initialised@[i] {
                let j = owner[i];
                assert(rect_contains(rects@[j], szi, i));
                let r = rects@[j];
                lemma_index(szi, r.from as int);
                assert(r.from < ci);
                assert(r.from as int / szi <= cy) by {
                    vstd::arithmetic::div_mod::lemma_div_is_ordered(r.from as int, ci as int, szi);
                }
                assert(rect_contains(rects@[j], szi, cy * szi + x));
                assert(initialised@[ci + (x - cx)]);
            }
        }

        // expand in the second direction, row by row below
        let mut end_corner: Option<(usize, usize)> = None;
        let mut off: usize = 1;
        while off <= sz - cy
            invariant_except_break
                end_corner.is_none(),
            invariant
                1 <= off <= sz - cy + 1,
                0 <= cx < sz,
                0 <= cy < sz,
                cx + sz_x <= sz,
                1 <= sz_x,
                cy * sz + sz <= n,
                ci == cy * sz + cx,
                n == sz * sz,
                szi == sz,
                sz * sz + sz <= usize::MAX,
                initialised@.len() == n,
                heights@.len() == n,
                forall|y: int, x: int|
                    cy < y < sz && cx <= x < cx + sz_x ==> !#[trigger] initialised@[y * szi + x],
                forall|y: int, x: int|
                    cy < y < cy + off && y < sz && cx <= x < cx + sz_x ==> #[trigger] heights@[y
                        * szi + x] == ch,
            ensures
                match end_corner {
                    None => forall|y: int, x: int|
                        cy < y < sz && cx <= x < cx + sz_x ==> #[trigger] heights@[y * szi + x]
                            == ch,
                    Some((ex, ey)) => {
                        &&& cy < ey < sz
                        &&& cx <= ex < cx + sz_x
                        &&& heights@[ey * szi + ex] != ch
                        &&& forall|y: int, x: int|
                            cy < y < ey && cx <= x < cx + sz_x ==> #[trigger] heights@[y * szi + x]
                                == ch
                        &&& forall|x: int|
                            cx <= x < ex ==> #[trigger] heights@[ey * szi + x] == ch
                    },
                },
            decreases sz - cy + 1 - off,
        {
            proof {
                assert(off * sz + cy * sz <= sz * sz) by (nonlinear_arith)
                    requires
                        off <= sz - cy,
                        0 <= cy,
                ;
            }
            let enumerate_offset = ci + off * sz;
            proof {
                assert(enumerate_offset == (cy + off) * sz + cx) by (nonlinear_arith)
                    requires
                        enumerate_offset == ci + off * sz,
                        ci == cy * sz + cx,
                ;
            }
            let mut k: usize = 0;
            let mut fail: Option<usize> = None;
            while k < sz_x && enumerate_offset + k < n && fail.is_none()
                invariant
                    k <= sz_x,
                    enumerate_offset == (cy + off) * sz + cx,
                    enumerate_offset <= n + cx,
                    sz * sz + sz <= usize::MAX,
                    0 <= cx < sz,
                    0 <= cy < sz,
                    1 <= off,
                    cx + sz_x <= sz,
                    n == sz * sz,
                    szi == sz,
                    initialised@.len() == n,
                    heights@.len() == n,
                    forall|y: int, x: int|
                        cy < y < sz && cx <= x < cx + sz_x ==> !#[trigger] initialised@[y * szi
                            + x],
                    forall|x: int|
                        cx <= x < cx + k ==> #[trigger] heights@[(cy + off) * szi + x] == ch,
                    match fail {
                        None => true,
                        Some(f) => f == k && k < sz_x && cy + off < sz && heights@[(cy + off) * szi
                            + cx + k] != ch,
                    },
                decreases sz_x - k + (if fail.is_none() { 1int } else { 0int }),
            {
                let real_idx = k + enumerate_offset;
                proof {
                    if cy + off >= sz {
                        assert(enumerate_offset >= n) by (nonlinear_arith)
                            requires
                                enumerate_offset == (cy + off) * sz + cx,
                                cy + off >= sz,
                                n == sz * sz,
                                cx >= 0,
                        ;
                    }
                    assert((cy + off) * szi + (cx + k) == real_idx);
                }
                if initialised[real_idx] {
                    fail = Some(real_idx);
                } else if heights[real_idx] != ch {
                    fail = Some(k);
                } else {
                    k = k + 1;
                }
            }
            if let Some(fail_idx) = fail {
                end_corner = Some((cx + fail_idx, cy + off));
                break ;
            }
            proof {
                if cy + off < sz {
                    assert(k == sz_x) by {
                        if k < sz_x {
                            assert(enumerate_offset + k < n) by (nonlinear_arith)
                                requires
                                    enumerate_offset == (cy + off) * sz + cx,
                                    cy + off < sz,
                                    k < sz_x,
                                    cx + sz_x <= sz,
                                    n == sz * sz,
                            ;
                        }
                    }
                }
            }
            off = off + 1;
        }

        let (end_x, end_y) = match end_corner {
            None => (cx + sz_x - 1, sz - 1),
            Some((x, y)) => {
                if x == cx {
                    // ended in previous row
                    (cx + sz_x - 1, y - 1)
                } else {
                    // ended halfway through row
                    (x - 1, y)
                }
            },
        };

        let ghost in_new = |i: int|
            0 <= i < n && cx <= i % szi <= end_x && cy <= i / szi <= end_y;
        proof {
            assert(cx <= end_x < cx + sz_x);
            assert(cy <= end_y < sz);
            assert forall|i: int| #[trigger] in_new(i) implies !initialised@[i] && heights@[i]
                == ch by {
                lemma_index(szi, i);
                let x = i % szi;
                let y = i / szi;
                if y == cy {
                    assert(i == ci + (x - cx));
                    assert(!initialised@[ci + (x - cx)] && heights@[ci + (x - cx)] == ch);
                } else {
                    assert(i == y * szi + x);
                    assert(!initialised@[y * szi + x]);
                    match end_corner {
                        None => {
                            assert(heights@[y * szi + x] == ch);
                        },
                        Some((fx, fy)) => {
                            if y < fy {
                                assert(heights@[y * szi + x] == ch);
                            } else {
                                assert(heights@[fy * szi + x] == ch);
                            }
                        },
                    }
                }
            }
            lemma_cell(szi, end_x as int, end_y as int);
            lemma_cell(szi, cx as int, cy as int);
        }
        let to = end_y * sz + end_x;
        let rect = SliceRect { from: ci, to, height: ch, area: next_area as u8 };
        proof {
            assert forall|i: int| in_new(i) == rect_contains(rect, szi, i) by {}
        }
        proof {
            assert(cy * szi <= end_y * szi) by (nonlinear_arith)
                requires
                    cy <= end_y,
                    szi > 0,
            ;
            assert(rect_valid(rect, szi, heights@));
        }
        proof {
            lemma_new_rect_greedy(
                rect,
                szi,
                heights@,
                initialised@,
                cx as int,
                cy as int,
                end_x as int,
                end_y as int,
                sz_x as int,
                end_corner,
            );
        }
        let ghost init_now = initialised@;
        let ghost rects_before = rects@;
        rects.push(rect);

        // mark the rectangle's blocks
        let ghost init_before = initialised@;
        let ghost out_before = output@;
        let area = SliceAreaIndex(next_area as u8);
        let truncated_sz_x = end_x - cx + 1;
        let mut row = cy;
        while row <= end_y
            invariant
                cy <= row <= end_y + 1,
                end_y < sz,
                cx + truncated_sz_x <= sz,
                truncated_sz_x == end_x - cx + 1,
                cx <= end_x,
                n == sz * sz,
                szi == sz,
                sz * sz + sz <= usize::MAX,
                initialised@.len() == n,
                output@.len() == n,
                init_before.len() == n,
                out_before.len() == n,
                forall|i: int|
                    0 <= i < n ==> #[trigger] initialised@[i] == (init_before[i] || (cx <= i % szi
                        <= end_x && cy <= i / szi < row)),
                forall|i: int|
                    0 <= i < n ==> #[trigger] output@[i] == (if fill_output && cx <= i % szi
                        <= end_x && cy <= i / szi < row {
                        area
                    } else {
                        out_before[i]
                    }),
            decreases end_y + 1 - row,
        {
            proof {
                assert(row * sz + sz <= sz * sz) by (nonlinear_arith)
                    requires
                        row < sz,
                ;
            }
            let start = (row * sz) + cx;
            let mut t: usize = 0;
            while t < truncated_sz_x
                invariant
                    t <= truncated_sz_x,
                    start == row * sz + cx,
                    cy <= row <= end_y,
                    end_y < sz,
                    cx + truncated_sz_x <= sz,
                    truncated_sz_x == end_x - cx + 1,
                    cx <= end_x,
                    n == sz * sz,
                    szi == sz,
                    initialised@.len() == n,
                    output@.len() == n,
                    init_before.len() == n,
                    out_before.len() == n,
                    forall|i: int|
                        0 <= i < n ==> #[trigger] initialised@[i] == (init_before[i] || (cx <= i
                            % szi <= end_x && (cy <= i / szi < row || (i / szi == row && i % szi
                            < cx + t)))),
                    forall|i: int|
                        0 <= i < n ==> #[trigger] output@[i] == (if fill_output && cx <= i % szi
                            <= end_x && (cy <= i / szi < row || (i / szi == row && i % szi < cx
                            + t)) {
                            area
                        } else {
                            out_before[i]
                        }),
                decreases truncated_sz_x - t,
            {
                proof {
                    lemma_cell(szi, (cx + t) as int, row as int);
                    assert(start + t == row * szi + (cx + t));
                }
                let ghost init_pre = initialised@;
                let ghost out_pre = output@;
                initialised[start + t] = true;
                if fill_output {
                    output[start + t] = area;
                }
                proof {
                    assert forall|i: int| 0 <= i < n && i != start + t implies (cx <= i % szi
                        <= end_x && (cy <= i / szi < row || (i / szi == row && i % szi < cx + t
                        + 1))) == (cx <= i % szi <= end_x && (cy <= i / szi < row || (i / szi
                        == row && i % szi < cx + t))) && #[trigger] initialised@[i] == init_pre[i]
                        && output@[i] == out_pre[i] by {
                        lemma_index(szi, i);
                        if i / szi == row && i % szi == cx + t {
                            assert(i == row * szi + (cx + t));
                        }
                    }
                    assert forall|i: int| 0 <= i < n implies #[trigger] output@[i] == (
                    if fill_output && cx <= i % szi <= end_x && (cy <= i / szi < row || (i / szi
                        == row && i % szi < cx + t + 1)) {
                        area
                    } else {
                        out_before[i]
                    }) by {
                        lemma_index(szi, i);
                        if i == start + t {
                            assert(i % szi == cx + t && i / szi == row);
                        } else {
                            assert(out_pre[i] == (if fill_output && cx <= i % szi <= end_x && (cy
                                <= i / szi < row || (i / szi == row && i % szi < cx + t)) {
                                area
                            } else {
                                out_before[i]
                            }));
                            if i / szi == row && i % szi == cx + t {
                                assert(i == row * szi + (cx + t));
                            }
                        }
                    }
                }
                t = t + 1;
            }
            row = row + 1;
        }

        proof {
            let k = next_area as int;
            let owner_before = owner;
            owner = Seq::new(n as nat, |i: int| if in_new(i) { k } else { owner_before[i] });
            floor = ci + 1;
            assert forall|j: int| 0 <= j < rects@.len() implies greedy_rect(
                #[trigger] rects@[j],
                szi,
                heights@,
                |i: int| !(0 <= owner[i] < j),
            ) by {
                if j == k {
                    assert forall|i: int| #![trigger owner[i]] 0 <= i < szi * szi implies (!init_now[i])
                        == !(0 <= owner[i] < j) by {}
                    lemma_greedy_rect_free(
                        rect,
                        szi,
                        heights@,
                        |i: int| !init_now[i],
                        |i: int| !(0 <= owner[i] < j),
                    );
                } else {
                    assert(rects@[j] == rects_before[j]);
                    assert forall|i: int| #![trigger owner[i]] 0 <= i < szi * szi implies (!(0
                        <= owner_before[i] < j)) == !(0 <= owner[i] < j) by {}
                    lemma_greedy_rect_free(
                        rects@[j],
                        szi,
                        heights@,
                        |i: int| !(0 <= owner_before[i] < j),
                        |i: int| !(0 <= owner[i] < j),
                    );
                }
            }
            assert forall|j: int, i: int|
                #![trigger rects@[j].from, owner[i]]
                0 <= j < rects@.len() && 0 <= i < rects@[j].from && heights@[i] > 0 implies 0
                    <= owner[i] < j by {
                if j == k {
                    assert(init_before[i]);
                } else {
                    assert(0 <= owner_before[i] < j);
                }
                assert(!in_new(i));
            }
            assert forall|i: int| 0 <= i < n implies #[trigger] initialised@[i] == (init_before[i]
                || in_new(i)) by {}
            assert forall|i: int| 0 <= i < n implies #[trigger] output@[i] == (if fill_output
                && in_new(i) {
                area
            } else {
                out_before[i]
            }) by {}
        }

        next_area = next_area + 1;

    }
    proof {
        assert forall|i: int| 0 <= i < n implies #[trigger] initialised@[i] == (heights@[i] > 0)
            by {
            if initialised@[i] {
                assert(rect_contains(rects@[owner[i]], szi, i));
            }
        }
        assert forall|i: int| 0 <= i < n && heights@[i] == 0 implies #[trigger] output@[i]
            == out0[i] by {
            if initialised@[i] {
                assert(rect_contains(rects@[owner[i]], szi, i));
            }
        }
        assert forall|i: int| 0 <= i < n && heights@[i] > 0 implies exists|j: int|
            0 <= j < rects@.len() && #[trigger] rect_contains(rects@[j], szi, i) by {
            assert(initialised@[i]);
            assert(rect_contains(rects@[owner[i]], szi, i));
        }
        assert forall|j: int, i: int|
            #![trigger rects@[j].from, heights@[i]]
            0 <= j < rects@.len() && 0 <= i < rects@[j].from && heights@[i] > 0 implies exists|
                j2: int,
            |
                0 <= j2 < j && #[trigger] rect_contains(rects@[j2], szi, i) by {
            assert(0 <= owner[i] < j);
            assert(rect_contains(rects@[owner[i]], szi, i));
        }
        assert forall|i: int, j: int|
            0 <= j < rects@.len() && #[trigger] rect_contains(rects@[j], szi, i) implies
                output@[i] == (if fill_output {
                SliceAreaIndex(rects@[j].area)
            } else {
                out0[i]
            }) by {
            assert(owner[i] == j);
        }
        assert forall|j: int| 0 <= j < rects@.len() implies greedy_rect(
            #[trigger] rects@[j],
            szi,
            heights@,
            |i: int| free_for(rects@, j, szi, i),
        ) by {
            assert forall|i: int| #![trigger owner[i]] 0 <= i < szi * szi implies (!(0 <= owner[i] < j))
                == free_for(rects@, j, szi, i) by {
                if 0 <= owner[i] < j {
                    assert(rect_contains(rects@[owner[i]], szi, i));
                }
            }
            lemma_greedy_rect_free(
                rects@[j],
                szi,
                heights@,
                |i: int| !(0 <= owner[i] < j),
                |i: int| free_for(rects@, j, szi, i),
            );
        }
    }
    rects
}

/// A rectangle holds its own first block.
proof fn lemma_rect_holds_from(r: SliceRect, sz: int, heights: Seq<u8>)
    requires
        sz > 0,
        rect_valid(r, sz, heights),
    ensures
        rect_contains(r, sz, r.from as int),
        heights[r.from as int] == r.height,
{
    lemma_index(sz, r.from as int);
    lemma_index(sz, r.to as int);
    vstd::arithmetic::div_mod::lemma_div_is_ordered(r.from as int, r.to as int, sz);
    assert(rect_contains(r, sz, r.from as int));
}

/// Two rectangles grown by the mesher from the same first block over the same free blocks
/// are the same rectangle, but for their areas.
proof fn lemma_greedy_unique(
    a: SliceRect,
    b: SliceRect,
    sz: int,
    heights: Seq<u8>,
    free: spec_fn(int) -> bool,
    wa: int,
    wb: int,
)
    requires
        sz > 0,
        a.from == b.from,
        rect_valid(a, sz, heights),
        rect_valid(b, sz, heights),
        greedy_run(a, sz, heights, free, wa),
        greedy_run(b, sz, heights, free, wb),
    ensures
        a.to == b.to,
        a.height == b.height,
{
    let cx = a.from as int % sz;
    let cy = a.from as int / sz;
    lemma_index(sz, a.from as int);
    lemma_index(sz, a.to as int);
    lemma_index(sz, b.to as int);
    vstd::arithmetic::div_mod::lemma_div_is_ordered(a.from as int, a.to as int, sz);
    vstd::arithmetic::div_mod::lemma_div_is_ordered(b.from as int, b.to as int, sz);
    let ch = a.height;
    assert(heights[(cy * sz + cx + 0)] == a.height);
    assert(heights[(cy * sz + cx + 0)] == b.height);
    if wa < wb {
        assert(heights[(cy * sz + cx + wa)] == ch && free(cy * sz + cx + wa));
        assert(false);
    }
    if wb < wa {
        assert(heights[(cy * sz + cx + wb)] == ch && free(cy * sz + cx + wb));
        assert(false);
    }
    let w = wa;
    let txa = a.to as int % sz;
    let tya = a.to as int / sz;
    let txb = b.to as int % sz;
    let tyb = b.to as int / sz;
    // which of the two shapes each rectangle takes
    let da = txa == cx + w - 1;
    let db = txb == cx + w - 1;
    if da && db {
        if tya < tyb {
            assert(heights[(tya + 1) * sz + cx] == ch);
        }
        if tyb < tya {
            assert(heights[(tyb + 1) * sz + cx] == ch);
        }
    } else if da && !db {
        if tyb <= tya {
            assert(heights[tyb * sz + (txb + 1)] == ch);
            assert(tyb * sz + (txb + 1) == tyb * sz + txb + 1);
        } else if tya + 1 < tyb {
            assert(heights[(tya + 1) * sz + cx] == ch);
        } else {
            assert(heights[tyb * sz + cx] == ch);
        }
        assert(false);
    } else if !da && db {
        if tya <= tyb {
            assert(heights[tya * sz + (txa + 1)] == ch);
            assert(tya * sz + (txa + 1) == tya * sz + txa + 1);
        } else if tyb + 1 < tya {
            assert(heights[(tyb + 1) * sz + cx] == ch);
        } else {
            assert(heights[tya * sz + cx] == ch);
        }
        assert(false);
    } else {
        if tya < tyb {
            assert(heights[tya * sz + (txa + 1)] == ch);
            assert(tya * sz + (txa + 1) == tya * sz + txa + 1);
        }
        if tyb < tya {
            assert(heights[tyb * sz + (txb + 1)] == ch);
            assert(tyb * sz + (txb + 1) == tyb * sz + txb + 1);
        }
        if tya == tyb && txa < txb {
            assert(heights[tya * sz + (txa + 1)] == ch);
            assert(tya * sz + (txa + 1) == tya * sz + txa + 1);
        }
        if tya == tyb && txb < txa {
            assert(heights[tyb * sz + (txb + 1)] == ch);
            assert(tyb * sz + (txb + 1) == tyb * sz + txb + 1);
        }
    }
    assert(txa == txb && tya == tyb);
}

/// Two partitions as the mesher makes them that agree on their first `j` rectangles agree on
/// the next: it starts at the first block of non-zero height that no earlier rectangle holds,
/// and is grown from there the one way the mesher grows it.
proof fn lemma_mesh_step(r1: Seq<SliceRect>, r2: Seq<SliceRect>, sz: int, heights: Seq<u8>, j: int)
    requires
        sz > 0,
        mesh_partition(r1, sz, heights),
        mesh_partition(r2, sz, heights),
        0 <= j < r1.len(),
        0 <= j < r2.len(),
        forall|k: int| 0 <= k < j ==> r1[k] == r2[k],
    ensures
        r1[j] == r2[j],
{
    let a = r1[j];
    let b = r2[j];
    assert(rect_valid(a, sz, heights) && a.area == j as u8);
    assert(rect_valid(b, sz, heights) && b.area == j as u8);
    lemma_rect_holds_from(a, sz, heights);
    lemma_rect_holds_from(b, sz, heights);
    assert forall|j2: int| 0 <= j2 < j implies !rect_contains(r1[j2], sz, a.from as int) by {
        if rect_contains(r1[j2], sz, a.from as int) {
            assert(rect_contains(r1[j], sz, a.from as int));
        }
    }
    assert forall|j2: int| 0 <= j2 < j implies !rect_contains(r2[j2], sz, b.from as int) by {
        if rect_contains(r2[j2], sz, b.from as int) {
            assert(rect_contains(r2[j], sz, b.from as int));
        }
    }
    if a.from < b.from {
        assert(heights[a.from as int] > 0);
        let j2 = choose|j2: int| 0 <= j2 < j && #[trigger] rect_contains(r2[j2], sz, a.from as int);
        assert(r1[j2] == r2[j2]);
        assert(false);
    }
    if b.from < a.from {
        assert(heights[b.from as int] > 0);
        let j2 = choose|j2: int| 0 <= j2 < j && #[trigger] rect_contains(r1[j2], sz, b.from as int);
        assert(r1[j2] == r2[j2]);
        assert(false);
    }
    let f1 = |i: int| free_for(r1, j, sz, i);
    let f2 = |i: int| free_for(r2, j, sz, i);
    assert forall|i: int| 0 <= i < sz * sz implies #[trigger] f2(i) == f1(i) by {
        if !free_for(r1, j, sz, i) {
            let j2 = choose|j2: int| 0 <= j2 < j && #[trigger] rect_contains(r1[j2], sz, i);
            assert(r1[j2] == r2[j2]);
        }
        if !free_for(r2, j, sz, i) {
            let j2 = choose|j2: int| 0 <= j2 < j && #[trigger] rect_contains(r2[j2], sz, i);
            assert(r1[j2] == r2[j2]);
        }
    }
    assert(greedy_rect(a, sz, heights, f1));
    assert(greedy_rect(b, sz, heights, f2));
    lemma_greedy_rect_free(b, sz, heights, f2, f1);
    let wa = choose|w: int| greedy_run(a, sz, heights, f1, w);
    let wb = choose|w: int| greedy_run(b, sz, heights, f1, w);
    lemma_greedy_unique(a, b, sz, heights, f1, wa, wb);
    assert(a == b);
}

/// Two partitions as the mesher makes them agree on their first `k` rectangles.
proof fn lemma_mesh_prefix(r1: Seq<SliceRect>, r2: Seq<SliceRect>, sz: int, heights: Seq<u8>, k: int)
    requires
        sz > 0,
        mesh_partition(r1, sz, heights),
        mesh_partition(r2, sz, heights),
        0 <= k <= r1.len(),
        k <= r2.len(),
    ensures
        forall|m: int| 0 <= m < k ==> r1[m] == r2[m],
    decreases k,
{
    if k > 0 {
        lemma_mesh_prefix(r1, r2, sz, heights, k - 1);
        lemma_mesh_step(r1, r2, sz, heights, k - 1);
    }
}

/// The mesher's rectangles are fixed by the heights: there is one way only to split a slice's
/// blocks into rectangles as the mesher does, so the rectangles it hands over, their order and
/// their areas are the same for the same heights.
pub proof fn lemma_mesh_partition_unique(r1: Seq<SliceRect>, r2: Seq<SliceRect>, sz: int, heights: Seq<u8>)
    requires
        sz > 0,
        mesh_partition(r1, sz, heights),
        mesh_partition(r2, sz, heights),
    ensures
        r1 == r2,
{
    let n = if r1.len() < r2.len() { r1.len() } else { r2.len() };
    lemma_mesh_prefix(r1, r2, sz, heights, n as int);
    if r1.len() > r2.len() {
        let a = r1[n as int];
        assert(rect_valid(a, sz, heights));
        lemma_rect_holds_from(a, sz, heights);
        assert(heights[a.from as int] > 0);
        let j2 = choose|j2: int| 0 <= j2 < r2.len() && #[trigger] rect_contains(r2[j2], sz, a.from as int);
        assert(r1[j2] == r2[j2]);
        assert(rect_contains(r1[n as int], sz, a.from as int));
        assert(false);
    }
    if r2.len() > r1.len() {
        let b = r2[n as int];
        assert(rect_valid(b, sz, heights));
        lemma_rect_holds_from(b, sz, heights);
        assert(heights[b.from as int] > 0);
        let j2 = choose|j2: int| 0 <= j2 < r1.len() && #[trigger] rect_contains(r1[j2], sz, b.from as int);
        assert(r1[j2] == r2[j2]);
        assert(rect_contains(r2[n as int], sz, b.from as int));
        assert(false);
    }
    assert(r1 =~= r2);
}

} // verus!
