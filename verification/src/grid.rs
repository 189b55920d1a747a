use vstd::prelude::*;

use core::marker::PhantomData;

verus! {

pub type CoordType = [i32; 3];

/// The shape of a three dimensional grid: its extent on each axis and its number of cells.
pub trait GridImpl: Sized {
    type Item;

    const DIMS: [i32; 3];

    const FULL_SIZE: usize;
}

/// The grid's extents are positive, its cell count is their product, and every cell index
/// fits a signed coordinate.
pub open spec fn dims_valid<I: GridImpl>() -> bool {
    &&& I::DIMS[0] > 0
    &&& I::DIMS[1] > 0
    &&& I::DIMS[2] > 0
    &&& I::FULL_SIZE == I::DIMS[0] * I::DIMS[1] * I::DIMS[2]
    &&& I::FULL_SIZE <= i32::MAX
}

/// The cell index of a coordinate: x varies fastest, then y, then z.
pub open spec fn flatten_spec(c: CoordType, dims: [i32; 3]) -> int {
    c[0] + dims[0] * (c[1] + dims[1] * c[2])
}

/// The coordinate of a cell index.
pub open spec fn unflatten_spec(i: int, dims: [i32; 3]) -> CoordType {
    [
        (i % dims[0] as int) as i32,
        ((i / dims[0] as int) % dims[1] as int) as i32,
        (i / (dims[1] * dims[0]) as int) as i32,
    ]
}

/// The coordinate lies inside the grid's extents.
pub open spec fn coord_in_bounds(c: CoordType, dims: [i32; 3]) -> bool {
    &&& 0 <= c[0] < dims[0]
    &&& 0 <= c[1] < dims[1]
    &&& 0 <= c[2] < dims[2]
}

/// A three dimensional grid of cells, stored flat.
pub struct Grid<I: GridImpl> {
    array: Vec<I::Item>,
    shape: PhantomData<I>,
}

impl<I: GridImpl> Grid<I> {
    /// The cells, in index order.
    pub closed spec fn cells(&self) -> Seq<I::Item> {
        self.array@
    }

    /// The grid holds exactly one cell per index.
    pub closed spec fn wf(&self) -> bool {
        self.array@.len() == I::FULL_SIZE
    }

    /// A grid with every cell set to the given value.
    pub fn new_filled(value: I::Item) -> (r: Self)
        where I::Item: Copy,
        ensures
            r.wf(),
            r.cells() == Seq::new(I::FULL_SIZE as nat, |_i: int| value),
    {
        let mut array: Vec<I::Item> = Vec::new();
        let mut i: usize = 0;
        while i < I::FULL_SIZE
            invariant
                i <= I::FULL_SIZE,
                array@ == Seq::new(i as nat, |_i: int| value),
            decreases I::FULL_SIZE - i,
        {
            array.push(value);
            i = i + 1;
        }
        Grid { array, shape: PhantomData }
    }

    pub fn indices(&self) -> (r: core::ops::Range<usize>)
        ensures
            r.start == 0,
            r.end == I::FULL_SIZE,
    {
        0..I::FULL_SIZE
    }

    pub fn full_size() -> (r: usize)
        ensures
            r == I::FULL_SIZE,
    {
        I::FULL_SIZE
    }

    /// The cell index of a coordinate.
    pub fn flatten(coord: &CoordType) -> (r: usize)
        requires
            i32::MIN <= I::DIMS[1] * coord[2] <= i32::MAX,
            i32::MIN <= coord[1] + I::DIMS[1] * coord[2] <= i32::MAX,
            i32::MIN <= I::DIMS[0] * (coord[1] + I::DIMS[1] * coord[2]) <= i32::MAX,
            0 <= flatten_spec(*coord, I::DIMS) <= i32::MAX,
        ensures
            r == flatten_spec(*coord, I::DIMS),
    {
        let x = coord[0];
        let y = coord[1];
        let z = coord[2];
        let xs = I::DIMS[0];
        let ys = I::DIMS[1];
        let v = x + xs * (y + ys * z);
        v as usize
    }

    /// The coordinate of a cell index.
    pub fn unflatten(index: usize) -> (r: CoordType)
        requires
            I::DIMS[0] > 0,
            I::DIMS[1] > 0,
            I::DIMS[0] * I::DIMS[1] <= i32::MAX,
            index <= i32::MAX,
        ensures
            r == unflatten_spec(index as int, I::DIMS),
    {
        let xs = I::DIMS[0];
        let ys = I::DIMS[1];
        let index = index as i32;
        assert(ys * xs == xs * ys) by (nonlinear_arith);
        assert(0 < ys * xs) by (nonlinear_arith)
            requires
                xs > 0,
                ys > 0,
        ;
        [index % xs, (index / xs) % ys, index / (ys * xs)]
    }

    pub fn unflatten_index(&self, index: usize) -> (r: CoordType)
        requires
            I::DIMS[0] > 0,
            I::DIMS[1] > 0,
            I::DIMS[0] * I::DIMS[1] <= i32::MAX,
            index <= i32::MAX,
        ensures
            r == unflatten_spec(index as int, I::DIMS),
    {
        Self::unflatten(index)
    }

    /// Vertical slice in z direction
    pub fn slice_range(index: i32) -> (r: (usize, usize))
        requires
            i32::MIN <= I::DIMS[0] * I::DIMS[1] <= i32::MAX,
            i32::MIN <= index * (I::DIMS[0] * I::DIMS[1]) <= i32::MAX,
            i32::MIN <= (index + 1) * (I::DIMS[0] * I::DIMS[1]) <= i32::MAX,
        ensures
            r.0 == (index * (I::DIMS[0] * I::DIMS[1])) as usize,
            r.1 == ((index + 1) * (I::DIMS[0] * I::DIMS[1])) as usize,
    {
        let xs = I::DIMS[0];
        let ys = I::DIMS[1];
        let slice_count = xs * ys;
        let offset = index * slice_count;
        assert(offset + slice_count == (index + 1) * slice_count) by (nonlinear_arith)
            requires
                offset == index * slice_count,
        ;
        (offset as usize, (offset + slice_count) as usize)
    }

    pub fn slice_count() -> (r: i32)
        ensures
            r == I::DIMS[2],
    {
        I::DIMS[2]
    }

    /// The cell at an index.
    pub fn get(&self, index: usize) -> (r: &I::Item)
        requires
            index < self.cells().len(),
        ensures
            *r == self.cells()[index as int],
    {
        &self.array[index]
    }

    /// Replaces the cell at an index.
    pub fn set(&mut self, index: usize, value: I::Item)
        requires
            index < old(self).cells().len(),
        ensures
            final(self).cells() == old(self).cells().update(index as int, value),
            final(self).wf() == old(self).wf(),
    {
        self.array.set(index, value);
    }

    /// The cell at a coordinate inside the grid.
    pub fn get_coord(&self, coord: &CoordType) -> (r: &I::Item)
        requires
            self.wf(),
            dims_valid::<I>(),
            coord_in_bounds(*coord, I::DIMS),
        ensures
            *r == self.cells()[flatten_spec(*coord, I::DIMS)],
    {
        proof {
            lemma_flatten_in_bounds::<I>(*coord);
        }
        let i = Self::flatten(coord);
        &self.array[i]
    }

    /// Replaces the cell at a coordinate inside the grid.
    pub fn set_coord(&mut self, coord: &CoordType, value: I::Item)
        requires
            old(self).wf(),
            dims_valid::<I>(),
            coord_in_bounds(*coord, I::DIMS),
        ensures
            final(self).wf(),
            final(self).cells() == old(self).cells().update(flatten_spec(*coord, I::DIMS), value),
    {
        proof {
            lemma_flatten_in_bounds::<I>(*coord);
        }
        let i = Self::flatten(coord);
        self.array.set(i, value);
    }

    /// The cells, in index order.
    pub fn as_slice(&self) -> (r: &[I::Item])
        ensures
            r@ == self.cells(),
    {
        self.array.as_slice()
    }
}

impl<I: GridImpl> Default for Grid<I> where I::Item: Default + Copy {
    /// A grid with every cell set to the item's default.
    fn default() -> (r: Self)
        ensures
            r.wf(),
    {
        Self::new_filled(I::Item::default())
    }
}

/// A coordinate inside the grid has a cell index inside the grid, and computing it
/// overflows nothing.
pub proof fn lemma_flatten_in_bounds<I: GridImpl>(c: CoordType)
    requires
        dims_valid::<I>(),
        coord_in_bounds(c, I::DIMS),
    ensures
        0 <= I::DIMS[1] * c[2] <= i32::MAX,
        0 <= c[1] + I::DIMS[1] * c[2] <= i32::MAX,
        0 <= I::DIMS[0] * (c[1] + I::DIMS[1] * c[2]) <= i32::MAX,
        0 <= flatten_spec(c, I::DIMS) < I::FULL_SIZE,
{
    let xs = I::DIMS[0] as int;
    let ys = I::DIMS[1] as int;
    let zs = I::DIMS[2] as int;
    let x = c[0] as int;
    let y = c[1] as int;
    let z = c[2] as int;
    assert(0 <= ys * z <= ys * (zs - 1)) by (nonlinear_arith)
        requires
            0 <= z < zs,
            ys > 0,
    ;
    assert(0 <= y + ys * z < ys * zs) by (nonlinear_arith)
        requires
            0 <= y < ys,
            0 <= ys * z <= ys * (zs - 1),
    ;
    assert(0 <= xs * (y + ys * z) <= xs * (ys * zs - 1)) by (nonlinear_arith)
        requires
            0 <= y + ys * z < ys * zs,
            xs > 0,
    ;
    assert(xs * (ys * zs) == xs * ys * zs) by (nonlinear_arith);
    assert(ys * zs <= xs * ys * zs) by (nonlinear_arith)
        requires
            xs >= 1,
            ys > 0,
            zs > 0,
    ;
    assert(ys * z < ys * zs) by (nonlinear_arith)
        requires
            0 <= ys * z <= ys * (zs - 1),
            ys > 0,
    ;
    assert(x + xs * (y + ys * z) < xs * ys * zs) by (nonlinear_arith)
        requires
            0 <= x < xs,
            xs * (y + ys * z) <= xs * (ys * zs - 1),
            xs * (ys * zs) == xs * ys * zs,
    ;
}

/// Taking a coordinate inside the grid to its cell index and back gives the same
/// coordinate.
pub proof fn lemma_unflatten_flatten<I: GridImpl>(c: CoordType)
    requires
        dims_valid::<I>(),
        coord_in_bounds(c, I::DIMS),
    ensures
        unflatten_spec(flatten_spec(c, I::DIMS), I::DIMS) == c,
{
    let xs = I::DIMS[0] as int;
    let ys = I::DIMS[1] as int;
    let x = c[0] as int;
    let y = c[1] as int;
    let z = c[2] as int;
    let i = x + xs * (y + ys * z);
    lemma_flatten_in_bounds::<I>(c);
    vstd::arithmetic::div_mod::lemma_fundamental_div_mod_converse(i, xs, y + ys * z, x);
    vstd::arithmetic::div_mod::lemma_fundamental_div_mod_converse(y + ys * z, ys, z, y);
    assert(i / (ys * xs) == z) by {
        assert(i == (ys * xs) * z + (x + xs * y)) by (nonlinear_arith)
            requires
                i == x + xs * (y + ys * z),
        ;
        assert(0 <= x + xs * y < ys * xs) by (nonlinear_arith)
            requires
                0 <= x < xs,
                0 <= y < ys,
        ;
        vstd::arithmetic::div_mod::lemma_fundamental_div_mod_converse(i, ys * xs, z, x + xs * y);
    }
    assert(unflatten_spec(i, I::DIMS) =~= c);
}

/// Taking a cell index to its coordinate and back gives the same index; the coordinate
/// lies inside the grid.
pub proof fn lemma_flatten_unflatten<I: GridImpl>(i: int)
    requires
        dims_valid::<I>(),
        0 <= i < I::FULL_SIZE,
    ensures
        coord_in_bounds(unflatten_spec(i, I::DIMS), I::DIMS),
        flatten_spec(unflatten_spec(i, I::DIMS), I::DIMS) == i,
{
    let xs = I::DIMS[0] as int;
    let ys = I::DIMS[1] as int;
    let zs = I::DIMS[2] as int;
    let x = i % xs;
    let q = i / xs;
    let y = q % ys;
    let z = q / ys;
    vstd::arithmetic::div_mod::lemma_fundamental_div_mod(i, xs);
    vstd::arithmetic::div_mod::lemma_fundamental_div_mod(q, ys);
    vstd::arithmetic::div_mod::lemma_mod_bound(i, xs);
    vstd::arithmetic::div_mod::lemma_mod_bound(q, ys);
    vstd::arithmetic::div_mod::lemma_div_denominator(i, xs, ys);
    assert(i / (xs * ys) == z);
    assert(ys * xs == xs * ys) by (nonlinear_arith);
    assert(0 <= q) by (nonlinear_arith)
        requires
            0 <= i,
            xs > 0,
            q == i / xs,
    ;
    assert(0 <= z < zs) by (nonlinear_arith)
        requires
            0 <= q,
            z == q / ys,
            q == i / xs,
            i < xs * ys * zs,
            z == i / (xs * ys),
            xs > 0,
            ys > 0,
            0 <= i,
    {
        vstd::arithmetic::div_mod::lemma_div_pos_is_pos(i, xs * ys);
        vstd::arithmetic::div_mod::lemma_div_by_multiple_is_strongly_ordered(i, xs * ys * zs, zs, xs * ys);
    }
    assert(x + xs * (y + ys * z) == i) by (nonlinear_arith)
        requires
            i == xs * q + x,
            q == ys * z + y,
    ;
}

/// The slices of a grid split its cells between them: a cell lies in the range of slice
/// `index` exactly when its coordinate's z is `index`, so the slices' ranges, one after
/// another, cover every cell once.
pub proof fn lemma_slice_ranges_partition<I: GridImpl>(index: int, j: int)
    requires
        dims_valid::<I>(),
        0 <= j < I::FULL_SIZE,
    ensures
        (index * (I::DIMS[0] * I::DIMS[1]) <= j < (index + 1) * (I::DIMS[0] * I::DIMS[1]))
            <==> unflatten_spec(j, I::DIMS)[2] == index,
        0 <= unflatten_spec(j, I::DIMS)[2] < I::DIMS[2],
{
    let xs = I::DIMS[0] as int;
    let ys = I::DIMS[1] as int;
    let d = xs * ys;
    assert(ys * xs == d) by (nonlinear_arith)
        requires
            d == xs * ys,
    ;
    assert(d > 0) by (nonlinear_arith)
        requires
            xs > 0,
            ys > 0,
            d == xs * ys,
    ;
    let q = j / d;
    vstd::arithmetic::div_mod::lemma_fundamental_div_mod(j, d);
    vstd::arithmetic::div_mod::lemma_mod_bound(j, d);
    lemma_flatten_unflatten::<I>(j);
    assert(unflatten_spec(j, I::DIMS)[2] == q);
    if index * d <= j < (index + 1) * d {
        assert((index + 1) * d == index * d + d) by (nonlinear_arith);
        vstd::arithmetic::div_mod::lemma_fundamental_div_mod_converse(j, d, index, j - index * d);
    }
    if q == index {
        assert((index + 1) * d == index * d + d) by (nonlinear_arith);
        assert(d * q == index * d) by (nonlinear_arith)
            requires
                q == index,
        ;
    }
}

} // verus!
