use vstd::prelude::*;

use crate::coordinate::dim::CHUNK_SIZE_I32;
use crate::coordinate::world::{ChunkPosition, WorldPosition};
use crate::range::{world_range_bounds, WorldRange};
use crate::chunk::chunk::SlabLoadingStatus;
use crate::slab::{SlabLocation, SlabPosition, SLAB_SIZE_I32};
use crate::world::{ContiguousChunkIterator, World};

verus! {

/// A change of the blocks in a range to one block type.
#[derive(Debug, Copy, Clone, PartialEq, Eq, Hash, Structural)]
pub struct GenericTerrainUpdate<P, B>(pub WorldRange<P>, pub B);

/// A change to the terrain in the world, regardless of chunk boundaries
#[derive(Debug, Copy, Clone, PartialEq, Eq, Hash, Structural)]
pub struct WorldTerrainUpdate<B>(pub GenericTerrainUpdate<WorldPosition, B>);

/// A change to the terrain in a slab
pub type SlabTerrainUpdate<B> = GenericTerrainUpdate<SlabPosition, B>;

/// The least multiple of `m` that is at least `v`, rounded with a mask: `(v + m - 1) & -m`.
pub open spec fn round_up_spec(v: i32, m: i32) -> i32 {
    ((v + m - 1) as i32) & ((-m) as i32)
}

/// The multiples of `m` that `find_boundaries` yields between `from` and `to`: counting up
/// by `m` from the rounded `from` while inside the range.
pub open spec fn boundaries_spec(from: i32, to: i32, m: i32) -> Seq<int> {
    let f = round_up_spec(from, m) as int;
    if from <= f <= to {
        Seq::new(((to - f) / (m as int) + 1) as nat, |k: int| f + k * m)
    } else {
        Seq::empty()
    }
}

/// The part of `[a, b]` that lies in the block of `m` values numbered `c` (those from
/// `c * m` to `c * m + m - 1`).
pub open spec fn clip(a: int, b: int, c: int, m: int) -> (int, int) {
    (
        if a > c * m {
            a
        } else {
            c * m
        },
        if b < c * m + m - 1 {
            b
        } else {
            c * m + m - 1
        },
    )
}

/// The parts of `[a, b]` in each block of `m` values it meets, in increasing order: one for
/// each block from the one holding `a` to the one holding `b`.
pub open spec fn axis_windows_spec(a: int, b: int, m: int) -> Seq<(int, int)> {
    Seq::new((b / m - a / m + 1) as nat, |i: int| clip(a, b, a / m + i, m))
}

/// The position in its slab of a block of the world.
pub open spec fn slab_position_spec(w: (int, int, int)) -> SlabPosition {
    SlabPosition(
        (w.0 % CHUNK_SIZE_I32 as int) as u8,
        (w.1 % CHUNK_SIZE_I32 as int) as u8,
        (w.2 % SLAB_SIZE_I32 as int) as i32,
    )
}

/// The change of the part of the range that lies in slab `s` of chunk `(cx, cy)`, given that
/// part's extent on each axis.
pub open spec fn cuboid_update<B>(
    wx: (int, int),
    wy: (int, int),
    wz: (int, int),
    bt: B,
) -> (SlabLocation, SlabTerrainUpdate<B>) {
    (
        SlabLocation {
            slab: (wz.0 / SLAB_SIZE_I32 as int) as i32,
            chunk: ChunkPosition(
                (wx.0 / CHUNK_SIZE_I32 as int) as i32,
                (wy.0 / CHUNK_SIZE_I32 as int) as i32,
            ),
        },
        GenericTerrainUpdate(
            WorldRange::Range(
                slab_position_spec((wx.0, wy.0, wz.0)),
                slab_position_spec((wx.1, wy.1, wz.1)),
            ),
            bt,
        ),
    )
}

/// The changes of each slab that the cuboid from `(ax, ay, az)` to `(bx, by, bz)` meets: the
/// part of the cuboid in that slab, chunk x outermost, then chunk y, then slab.
pub open spec fn split_spec<B>(
    ax: int,
    bx: int,
    ay: int,
    by: int,
    az: int,
    bz: int,
    bt: B,
) -> Seq<(SlabLocation, SlabTerrainUpdate<B>)> {
    let wx = axis_windows_spec(ax, bx, CHUNK_SIZE_I32 as int);
    let wy = axis_windows_spec(ay, by, CHUNK_SIZE_I32 as int);
    let wz = axis_windows_spec(az, bz, SLAB_SIZE_I32 as int);
    Seq::new(
        wx.len() * wy.len() * wz.len(),
        |k: int|
            {
                let iz = k % wz.len() as int;
                let iy = (k / wz.len() as int) % wy.len() as int;
                let ix = k / (wz.len() * wy.len()) as int;
                cuboid_update(wx[ix], wy[iy], wz[iz], bt)
            },
    )
}

pub proof fn lemma_round_up_16(v: i32)
    requires
        v <= i32::MAX - 15,
    ensures
        v <= round_up_spec(v, 16) < v + 16,
        round_up_spec(v, 16) % 16 == 0,
{
    assert(v <= (((v + 15) as i32) & (-16i32)) && (((v + 15) as i32) & (-16i32)) < v + 16)
        by (bit_vector)
        requires
            v <= i32::MAX - 15,
    ;
    assert((((v + 15) as i32) & (-16i32)) % 16 == 0) by (bit_vector)
        requires
            v <= i32::MAX - 15,
    ;
}

pub proof fn lemma_round_up_32(v: i32)
    requires
        v <= i32::MAX - 31,
    ensures
        v <= round_up_spec(v, 32) < v + 32,
        round_up_spec(v, 32) % 32 == 0,
{
    assert(v <= (((v + 31) as i32) & (-32i32)) && (((v + 31) as i32) & (-32i32)) < v + 32)
        by (bit_vector)
        requires
            v <= i32::MAX - 31,
    ;
    assert((((v + 31) as i32) & (-32i32)) % 32 == 0) by (bit_vector)
        requires
            v <= i32::MAX - 31,
    ;
}

/// The multiples of `multiple` from `from` to `to`, counting up from `from` rounded up to
/// a multiple.
pub fn find_boundaries(from: i32, to: i32, multiple: i32) -> (r: Vec<i32>)
    requires
        multiple > 0,
        multiple % 2 == 0,
        from <= to,
        from + multiple - 1 <= i32::MAX,
        to + multiple <= i32::MAX,
    ensures
        r@.len() == boundaries_spec(from, to, multiple).len(),
        forall|k: int| 0 <= k < r@.len() ==> r@[k] == boundaries_spec(from, to, multiple)[k],
{
    let first_boundary = (from + multiple - 1) & -multiple;
    let ghost f = first_boundary as int;
    let mut out: Vec<i32> = Vec::new();
    let mut coord = first_boundary;
    assert(first_boundary == round_up_spec(from, multiple));
    while from <= coord && coord <= to
        invariant
            multiple > 0,
            from <= to,
            to + multiple <= i32::MAX,
            f == round_up_spec(from, multiple),
            out@.len() >= 0,
            coord == f + out@.len() * multiple,
            out@.len() > 0 ==> from <= f && coord <= to + multiple && coord > from,
            forall|k: int| 0 <= k < out@.len() ==> out@[k] == f + k * multiple,
            forall|k: int| 0 <= k < out@.len() ==> #[trigger] out@[k] <= to,
        decreases to + multiple - coord,
    {
        out.push(coord);
        proof {
            assert(f + out@.len() * multiple == f + (out@.len() - 1) * multiple + multiple)
                by (nonlinear_arith);
        }
        coord = coord + multiple;
    }
    proof {
        let bs = boundaries_spec(from, to, multiple);
        let n = out@.len() as int;
        if from <= f <= to {
            assert(n >= 1);
            assert(f + (n - 1) * multiple <= to) by {
                assert(out@[n - 1] <= to);
            }
            assert(f + n * multiple > to);
            assert((n - 1) * multiple == n * multiple - multiple) by (nonlinear_arith);
            assert((to - f) / (multiple as int) == n - 1) by {
                vstd::arithmetic::div_mod::lemma_fundamental_div_mod_converse(
                    to - f,
                    multiple as int,
                    n - 1,
                    to - f - (n - 1) * multiple,
                );
            }
        } else {
            if n > 0 {
                assert(out@[0] <= to);
            }
        }
    }
    out
}

/// A coordinate bounding a part of a range: one of the range's own ends, or a boundary
/// between blocks of coordinates that starts a new block.
#[derive(Clone, Copy)]
enum Coord {
    Original(i32),
    Boundary(i32),
}

impl Coord {
    /// The first coordinate of the part that starts here.
    fn as_from(self) -> (r: i32)
        ensures
            r == match self {
                Coord::Original(i) => i,
                Coord::Boundary(i) => i,
            },
    {
        match self {
            Coord::Original(i) => i,
            Coord::Boundary(i) => i,
        }
    }

    /// The last coordinate of the part that ends here.
    fn as_to(self) -> (r: i32)
        requires
            self matches Coord::Boundary(i) ==> i > i32::MIN,
        ensures
            r == match self {
                Coord::Original(i) => i as int,
                Coord::Boundary(i) => i - 1,
            },
    {
        match self {
            Coord::Original(i) => i,
            Coord::Boundary(i) => i - 1,
        }
    }
}

/// The boundaries strictly above `a` up to `b` are the starts of the blocks after the one
/// holding `a`, up to the one holding `b`.
proof fn lemma_boundaries_after_first(a: i32, b: i32, m: i32)
    requires
        m == 16 || m == 32,
        a <= b,
        b <= i32::MAX - m,
    ensures
        ({
            let bs = boundaries_spec(a, b, m);
            let q = a as int / m as int;
            let skip: int = if bs.len() > 0 && bs[0] == a { 1 } else { 0 };
            &&& bs.len() - skip == b as int / m as int - q
            &&& forall|j: int| skip <= j < bs.len() ==> #[trigger] bs[j] == (q + 1 + j - skip) * m
            &&& forall|j: int| skip <= j < bs.len() ==> bs[j] != a
            &&& forall|j: int| skip <= j < bs.len() ==> a < #[trigger] bs[j] <= b
        }),
{
    let mi = m as int;
    let ai = a as int;
    let bi = b as int;
    if m == 16 {
        lemma_round_up_16(a);
    } else {
        lemma_round_up_32(a);
    }
    let f = round_up_spec(a, m) as int;
    let q = ai / mi;
    vstd::arithmetic::div_mod::lemma_fundamental_div_mod(ai, mi);
    vstd::arithmetic::div_mod::lemma_fundamental_div_mod(bi, mi);
    vstd::arithmetic::div_mod::lemma_fundamental_div_mod(f, mi);
    assert(ai == mi * q + ai % mi);
    let fq = f / mi;
    assert(f == mi * fq);
    // the rounded value is the start of the block holding `a`, or of the next one
    assert(fq == q || fq == q + 1) by (nonlinear_arith)
        requires
            ai <= f < ai + mi,
            f == mi * fq,
            ai == mi * q + ai % mi,
            0 <= ai % mi < mi,
            mi > 0,
    ;
    assert(fq == q <==> ai % mi == 0) by (nonlinear_arith)
        requires
            ai <= f < ai + mi,
            f == mi * fq,
            ai == mi * q + ai % mi,
            0 <= ai % mi < mi,
            fq == q || fq == q + 1,
    ;
    let bq = bi / mi;
    assert(bi == mi * bq + bi % mi);
    assert(q <= bq) by {
        vstd::arithmetic::div_mod::lemma_div_is_ordered(ai, bi, mi);
    }
    let bs = boundaries_spec(a, b, m);
    if ai <= f <= bi {
        // count is (b - f) / m + 1 = bq - fq + 1
        vstd::arithmetic::div_mod::lemma_fundamental_div_mod_converse(
            bi - f,
            mi,
            bq - fq,
            bi % mi,
        );
        assert(bi - f == (bq - fq) * mi + bi % mi) by (nonlinear_arith)
            requires
                bi == mi * bq + bi % mi,
                f == mi * fq,
        ;
        assert(bs.len() == bq - fq + 1);
        assert forall|j: int| 0 <= j < bs.len() implies #[trigger] bs[j] == (fq + j) * mi by {
            assert(f + j * mi == (fq + j) * mi) by (nonlinear_arith)
                requires
                    f == mi * fq,
            ;
        }
        if fq == q {
            assert(bs[0] == ai);
            assert forall|j: int| 1 <= j < bs.len() implies #[trigger] bs[j] == (q + 1 + j - 1)
                * mi by {
                assert(bs[j] == (fq + j) * mi);
            }
            assert forall|j: int| 1 <= j < bs.len() implies bs[j] != a by {
                assert((fq + j) * mi >= (fq + 1) * mi) by (nonlinear_arith)
                    requires
                        j >= 1,
                        mi > 0,
                ;
                assert((fq + 1) * mi == f + mi) by (nonlinear_arith)
                    requires
                        f == mi * fq,
                ;
            }
        } else {
            assert(bs[0] != ai);
            assert forall|j: int| 0 <= j < bs.len() implies bs[j] != a by {
                assert((fq + j) * mi >= fq * mi) by (nonlinear_arith)
                    requires
                        j >= 0,
                        mi > 0,
                ;
                assert(fq * mi == f) by (nonlinear_arith)
                    requires
                        f == mi * fq,
                ;
            }
        }
        assert forall|j: int| 0 <= j < bs.len() implies a <= #[trigger] bs[j] <= b by {
            assert(bs[j] == f + j * mi);
            assert(j * mi >= 0) by (nonlinear_arith)
                requires
                    j >= 0,
                    mi > 0,
            ;
            assert(f + j * mi <= f + (bs.len() - 1) * mi) by (nonlinear_arith)
                requires
                    j <= bs.len() - 1,
                    mi > 0,
            ;
            assert(f + (bs.len() - 1) * mi <= bi) by (nonlinear_arith)
                requires
                    bs.len() - 1 == bq - fq,
                    f == mi * fq,
                    bi == mi * bq + bi % mi,
                    bi % mi >= 0,
            ;
        }
    } else {
        assert(bs.len() == 0);
        // no block starts after the one holding `a` before `b`
        assert(fq == q + 1);
        assert(bq == q) by (nonlinear_arith)
            requires
                f > bi,
                f == mi * (q + 1),
                bi == mi * bq + bi % mi,
                0 <= bi % mi < mi,
                q <= bq,
        ;
    }
}

/// The parts of `[a, b]` that lie in each block of `m` coordinates (a chunk or a slab), in
/// increasing order.
fn axis_windows(a: i32, b: i32, m: i32) -> (r: Vec<(i32, i32)>)
    requires
        m == 16 || m == 32,
        a <= b,
        b <= i32::MAX - m,
    ensures
        r@.len() == axis_windows_spec(a as int, b as int, m as int).len(),
        forall|i: int|
            0 <= i < r@.len() ==> (r@[i].0 as int, r@[i].1 as int) == #[trigger] axis_windows_spec(
                a as int,
                b as int,
                m as int,
            )[i],
{
    let boundaries = find_boundaries(a, b, m);
    let ghost bs = boundaries_spec(a, b, m);
    let ghost mi = m as int;
    let ghost q = a as int / m as int;
    proof {
        lemma_boundaries_after_first(a, b, m);
    }
    // skip the first boundary if it is `a` itself
    let mut k: usize = 0;
    while k < boundaries.len() && boundaries[k] == a
        invariant
            k <= boundaries@.len(),
            boundaries@.len() == bs.len(),
            forall|j: int| 0 <= j < boundaries@.len() ==> boundaries@[j] == bs[j],
            k == 0 || (k == 1 && bs[0] == a),
            forall|j: int| (if bs.len() > 0 && bs[0] == a { 1int } else { 0int }) <= j < bs.len() ==> bs[j] != a,
        decreases boundaries@.len() - k,
    {
        proof {
            assert(boundaries@[k as int] == a);
            assert(bs[k as int] == a);
            if k == 1 {
                assert(bs[0] == a);
                assert(bs[1] != a);
            }
        }
        k = k + 1;
    }
    let ghost skip = k as int;
    let mut coords: Vec<Coord> = Vec::new();
    coords.push(Coord::Original(a));
    while k < boundaries.len()
        invariant
            skip <= k <= boundaries@.len(),
            boundaries@.len() == bs.len(),
            forall|j: int| 0 <= j < boundaries@.len() ==> boundaries@[j] == bs[j],
            coords@.len() == 1 + k - skip,
            coords@[0] == Coord::Original(a),
            forall|j: int|
                1 <= j < coords@.len() ==> #[trigger] coords@[j] == Coord::Boundary(
                    boundaries@[j - 1 + skip],
                ),
        decreases boundaries@.len() - k,
    {
        coords.push(Coord::Boundary(boundaries[k]));
        k = k + 1;
    }
    coords.push(Coord::Original(b));
    let ghost cnt = bs.len() - skip;
    proof {
        assert(skip == (if bs.len() > 0 && bs[0] == a { 1int } else { 0int }));
        assert(cnt == b as int / mi - q);
        assert forall|j: int| 1 <= j <= cnt implies #[trigger] coords@[j] == Coord::Boundary(
            ((q + j) * mi) as i32,
        ) && i32::MIN < (q + j) * mi <= i32::MAX by {
            assert(bs[(j - 1) + skip] == (q + 1 + (j - 1 + skip) - skip) * m);
            assert(coords@[j] == Coord::Boundary(boundaries@[j - 1 + skip]));
        }
    }
    let ghost spec = axis_windows_spec(a as int, b as int, m as int);
    let mut out: Vec<(i32, i32)> = Vec::new();
    let mut i: usize = 0;
    while i + 1 < coords.len()
        invariant
            coords@.len() == cnt + 2,
            cnt == b as int / mi - q,
            q == a as int / mi,
            mi == m,
            m == 16 || m == 32,
            a <= b,
            spec == axis_windows_spec(a as int, b as int, m as int),
            i <= cnt + 1,
            out@.len() == i,
            coords@[0] == Coord::Original(a),
            coords@[cnt + 1] == Coord::Original(b),
            forall|j: int|
                1 <= j <= cnt ==> #[trigger] coords@[j] == Coord::Boundary(((q + j) * mi) as i32)
                    && i32::MIN < (q + j) * mi <= i32::MAX,
            forall|j: int|
                0 <= j < out@.len() ==> (out@[j].0 as int, out@[j].1 as int) == #[trigger] spec[j],
        decreases cnt + 1 - i,
    {
        let from = coords[i].as_from();
        let to = coords[i + 1].as_to();
        proof {
            let ii = i as int;
            vstd::arithmetic::div_mod::lemma_fundamental_div_mod(a as int, mi);
            vstd::arithmetic::div_mod::lemma_fundamental_div_mod(b as int, mi);
            let w = clip(a as int, b as int, q + ii, mi);
            assert(spec[ii] == w);
            // the start of the part
            if ii == 0 {
                assert(q * mi <= a) by (nonlinear_arith)
                    requires
                        a as int == mi * q + (a as int) % mi,
                        0 <= (a as int) % mi,
                ;
            } else {
                assert(coords@[ii] == Coord::Boundary(((q + ii) * mi) as i32));
                assert((q + ii) * mi > a) by (nonlinear_arith)
                    requires
                        a as int == mi * q + (a as int) % mi,
                        (a as int) % mi < mi,
                        ii >= 1,
                ;
            }
            // the end of the part
            if ii + 1 <= cnt {
                assert(coords@[ii + 1] == Coord::Boundary(((q + ii + 1) * mi) as i32));
                assert((q + ii) * mi + mi - 1 < b) by (nonlinear_arith)
                    requires
                        b as int == mi * (b as int / mi) + (b as int) % mi,
                        0 <= (b as int) % mi,
                        q + ii + 1 <= b as int / mi,
                        mi > 0,
                ;
                assert((q + ii + 1) * mi - 1 == (q + ii) * mi + mi - 1) by (nonlinear_arith);
            } else {
                assert(b <= (q + ii) * mi + mi - 1) by (nonlinear_arith)
                    requires
                        b as int == mi * (b as int / mi) + (b as int) % mi,
                        (b as int) % mi < mi,
                        q + ii == b as int / mi,
                ;
            }
        }
        out.push((from, to));
        i = i + 1;
    }
    out
}

/// The chunk boundaries from `from` to `to` on a horizontal axis.
pub fn inter_chunk_boundaries(from: i32, to: i32) -> (r: Vec<i32>)
    requires
        from <= to,
        to <= i32::MAX - CHUNK_SIZE_I32,
    ensures
        r@.len() == boundaries_spec(from, to, CHUNK_SIZE_I32).len(),
        forall|k: int|
            0 <= k < r@.len() ==> r@[k] == boundaries_spec(from, to, CHUNK_SIZE_I32)[k],
{
    find_boundaries(from, to, CHUNK_SIZE_I32)
}

/// The slab boundaries from `from` to `to` on the vertical axis.
pub fn inter_slab_boundaries(from: i32, to: i32) -> (r: Vec<i32>)
    requires
        from <= to,
        to <= i32::MAX - SLAB_SIZE_I32,
    ensures
        r@.len() == boundaries_spec(from, to, SLAB_SIZE_I32).len(),
        forall|k: int| 0 <= k < r@.len() ==> r@[k] == boundaries_spec(from, to, SLAB_SIZE_I32)[k],
{
    find_boundaries(from, to, SLAB_SIZE_I32)
}

/// The position in its slab of a block of the world.
fn slab_position_of(w: WorldPosition) -> (r: SlabPosition)
    ensures
        r == slab_position_spec((w.0 as int, w.1 as int, w.2 as int)),
{
    let x = w.0.checked_rem_euclid(CHUNK_SIZE_I32).unwrap();
    let y = w.1.checked_rem_euclid(CHUNK_SIZE_I32).unwrap();
    let z = w.2.checked_rem_euclid(SLAB_SIZE_I32).unwrap();
    SlabPosition(x as u8, y as u8, z)
}

/// The ranges are small enough to step past their ends by a chunk or a slab.
pub open spec fn split_fits(bx: int, by: int, bz: int) -> bool {
    &&& bx <= i32::MAX - CHUNK_SIZE_I32
    &&& by <= i32::MAX - CHUNK_SIZE_I32
    &&& bz <= i32::MAX - SLAB_SIZE_I32
}

/// Splits a range of the world into the parts that lie in each slab, each given as a change
/// of that slab.
pub fn split_range_across_slabs<B: Copy>(range: WorldRange<WorldPosition>, bt: B) -> (r: Vec<
    (SlabLocation, SlabTerrainUpdate<B>),
>)
    requires
        ({
            let ((ax, bx), (ay, by), (az, bz)) = world_range_bounds(range);
            split_fits(bx as int, by as int, bz as int)
        }),
    ensures
        ({
            let ((ax, bx), (ay, by), (az, bz)) = world_range_bounds(range);
            r@ == split_spec(ax as int, bx as int, ay as int, by as int, az as int, bz as int, bt)
        }),
{
    let ((ax, bx), (ay, by), (az, bz)) = range.ranges();
    let wx = axis_windows(ax, bx, CHUNK_SIZE_I32);
    let wy = axis_windows(ay, by, CHUNK_SIZE_I32);
    let wz = axis_windows(az, bz, SLAB_SIZE_I32);
    let ghost sx = axis_windows_spec(ax as int, bx as int, CHUNK_SIZE_I32 as int);
    let ghost sy = axis_windows_spec(ay as int, by as int, CHUNK_SIZE_I32 as int);
    let ghost sz = axis_windows_spec(az as int, bz as int, SLAB_SIZE_I32 as int);
    let ghost spec = split_spec(ax as int, bx as int, ay as int, by as int, az as int, bz as int, bt);
    let nx = wx.len();
    let ny = wy.len();
    let nz = wz.len();
    proof {
        vstd::arithmetic::div_mod::lemma_div_is_ordered(ax as int, bx as int, 16);
        vstd::arithmetic::div_mod::lemma_div_is_ordered(ay as int, by as int, 16);
        vstd::arithmetic::div_mod::lemma_div_is_ordered(az as int, bz as int, 32);
        assert(nx >= 1 && ny >= 1 && nz >= 1);
    }
    let mut out: Vec<(SlabLocation, SlabTerrainUpdate<B>)> = Vec::new();
    let mut ix: usize = 0;
    while ix < nx
        invariant
            ix <= nx,
            nx == sx.len(),
            ny == sy.len(),
            nz == sz.len(),
            ny >= 1,
            nz >= 1,
            wx@.len() == nx,
            wy@.len() == ny,
            wz@.len() == nz,
            forall|i: int| 0 <= i < nx ==> (wx@[i].0 as int, wx@[i].1 as int) == #[trigger] sx[i],
            forall|i: int| 0 <= i < ny ==> (wy@[i].0 as int, wy@[i].1 as int) == #[trigger] sy[i],
            forall|i: int| 0 <= i < nz ==> (wz@[i].0 as int, wz@[i].1 as int) == #[trigger] sz[i],
            spec == split_spec(ax as int, bx as int, ay as int, by as int, az as int, bz as int, bt),
                sx == axis_windows_spec(ax as int, bx as int, CHUNK_SIZE_I32 as int),
                sy == axis_windows_spec(ay as int, by as int, CHUNK_SIZE_I32 as int),
                sz == axis_windows_spec(az as int, bz as int, SLAB_SIZE_I32 as int),
            spec.len() == nx * ny * nz,
            out@.len() == ix * ny * nz,
            forall|k: int| 0 <= k < out@.len() ==> #[trigger] out@[k] == spec[k],
        decreases nx - ix,
    {
        let mut iy: usize = 0;
        while iy < ny
            invariant
                ix < nx,
                iy <= ny,
                nx == sx.len(),
                ny == sy.len(),
                nz == sz.len(),
                ny >= 1,
                nz >= 1,
                wx@.len() == nx,
                wy@.len() == ny,
                wz@.len() == nz,
                forall|i: int| 0 <= i < nx ==> (wx@[i].0 as int, wx@[i].1 as int) == #[trigger] sx[i],
                forall|i: int| 0 <= i < ny ==> (wy@[i].0 as int, wy@[i].1 as int) == #[trigger] sy[i],
                forall|i: int| 0 <= i < nz ==> (wz@[i].0 as int, wz@[i].1 as int) == #[trigger] sz[i],
                spec == split_spec(ax as int, bx as int, ay as int, by as int, az as int, bz as int, bt),
                sx == axis_windows_spec(ax as int, bx as int, CHUNK_SIZE_I32 as int),
                sy == axis_windows_spec(ay as int, by as int, CHUNK_SIZE_I32 as int),
                sz == axis_windows_spec(az as int, bz as int, SLAB_SIZE_I32 as int),
                spec.len() == nx * ny * nz,
                out@.len() == (ix * ny + iy) * nz,
                forall|k: int| 0 <= k < out@.len() ==> #[trigger] out@[k] == spec[k],
            decreases ny - iy,
        {
            let mut iz: usize = 0;
            while iz < nz
                invariant
                    ix < nx,
                    iy < ny,
                    iz <= nz,
                    nx == sx.len(),
                    ny == sy.len(),
                    nz == sz.len(),
                    ny >= 1,
                    nz >= 1,
                    wx@.len() == nx,
                    wy@.len() == ny,
                    wz@.len() == nz,
                    forall|i: int| 0 <= i < nx ==> (wx@[i].0 as int, wx@[i].1 as int) == #[trigger] sx[i],
                    forall|i: int| 0 <= i < ny ==> (wy@[i].0 as int, wy@[i].1 as int) == #[trigger] sy[i],
                    forall|i: int| 0 <= i < nz ==> (wz@[i].0 as int, wz@[i].1 as int) == #[trigger] sz[i],
                    spec == split_spec(ax as int, bx as int, ay as int, by as int, az as int, bz as int, bt),
                sx == axis_windows_spec(ax as int, bx as int, CHUNK_SIZE_I32 as int),
                sy == axis_windows_spec(ay as int, by as int, CHUNK_SIZE_I32 as int),
                sz == axis_windows_spec(az as int, bz as int, SLAB_SIZE_I32 as int),
                    spec.len() == nx * ny * nz,
                    out@.len() == (ix * ny + iy) * nz + iz,
                    forall|k: int| 0 <= k < out@.len() ==> #[trigger] out@[k] == spec[k],
                decreases nz - iz,
            {
                let (x1, x2) = wx[ix];
                let (y1, y2) = wy[iy];
                let (z1, z2) = wz[iz];
                let corner_bl = WorldPosition(x1, y1, z1);
                let corner_tr = WorldPosition(x2, y2, z2);
                let chunk = corner_bl.chunk();
                let slab = z1.checked_div_euclid(SLAB_SIZE_I32).unwrap();
                let update = GenericTerrainUpdate(
                    WorldRange::Range(slab_position_of(corner_bl), slab_position_of(corner_tr)),
                    bt,
                );
                proof {
                    let k = ((ix * ny + iy) * nz + iz) as int;
                    assert(sx[ix as int] == (x1 as int, x2 as int));
                    assert(sy[iy as int] == (y1 as int, y2 as int));
                    assert(sz[iz as int] == (z1 as int, z2 as int));
                    assert(k < nx * ny * nz) by (nonlinear_arith)
                        requires
                            k == (ix * ny + iy) * nz + iz,
                            ix < nx,
                            iy < ny,
                            iz < nz,
                    ;
                    vstd::arithmetic::div_mod::lemma_fundamental_div_mod_converse(
                        k,
                        nz as int,
                        (ix * ny + iy) as int,
                        iz as int,
                    );
                    vstd::arithmetic::div_mod::lemma_fundamental_div_mod_converse(
                        (ix * ny + iy) as int,
                        ny as int,
                        ix as int,
                        iy as int,
                    );
                    vstd::arithmetic::div_mod::lemma_div_denominator(k, nz as int, ny as int);
                    assert((nz * ny) as int == nz as int * ny as int);
                    assert(k % nz as int == iz);
                    assert((k / nz as int) % ny as int == iy);
                    assert(k / (nz as int * ny as int) == ix);
                    assert(spec[k] == cuboid_update(sx[ix as int], sy[iy as int], sz[iz as int], bt));
                }
                let loc = SlabLocation::new(slab, chunk);
                proof {
                    let k = ((ix * ny + iy) * nz + iz) as int;
                    assert((loc, update) == spec[k]);
                }
                out.push((loc, update));
                iz = iz + 1;
            }
            proof {
                assert((ix * ny + iy) * nz + nz == (ix * ny + (iy + 1)) * nz) by (nonlinear_arith);
            }
            iy = iy + 1;
        }
        proof {
            assert((ix * ny + ny) * nz == (ix + 1) * ny * nz) by (nonlinear_arith);
        }
        ix = ix + 1;
    }
    proof {
        assert(out@ =~= spec);
    }
    out
}

/// The extent in the world of a slab's change: its local corners placed in its slab.
pub open spec fn update_covers<B>(entry: (SlabLocation, SlabTerrainUpdate<B>), p: (int, int, int)) -> bool {
    let (loc, update) = entry;
    match update.0 {
        WorldRange::Range(lo, hi) => {
            let bx = loc.chunk.0 as int * CHUNK_SIZE_I32 as int;
            let by = loc.chunk.1 as int * CHUNK_SIZE_I32 as int;
            let bz = loc.slab as int * SLAB_SIZE_I32 as int;
            &&& bx + lo.0 as int <= p.0 <= bx + hi.0 as int
            &&& by + lo.1 as int <= p.1 <= by + hi.1 as int
            &&& bz + lo.2 as int <= p.2 <= bz + hi.2 as int
        },
        WorldRange::Single(b) => p == (
            loc.chunk.0 as int * CHUNK_SIZE_I32 as int + b.0 as int,
            loc.chunk.1 as int * CHUNK_SIZE_I32 as int + b.1 as int,
            loc.slab as int * SLAB_SIZE_I32 as int + b.2 as int,
        ),
    }
}

/// `v` lies in the window.
pub open spec fn in_window(w: (int, int), v: int) -> bool {
    w.0 <= v <= w.1
}

/// The parts of `[a, b]` follow one another without gap or overlap from `a` to `b`, each in
/// the block of `m` values it is numbered by, so that each value of `[a, b]` lies in the part
/// of its block and in no other.
pub proof fn lemma_axis_windows_partition(a: int, b: int, m: int)
    requires
        m > 0,
        a <= b,
    ensures
        ({
            let w = axis_windows_spec(a, b, m);
            &&& w.len() >= 1
            &&& w[0].0 == a
            &&& w[w.len() - 1].1 == b
            &&& forall|i: int| 0 <= i < w.len() - 1 ==> #[trigger] w[i + 1].0 == w[i].1 + 1
            &&& forall|i: int|
                0 <= i < w.len() ==> #[trigger] w[i].0 <= w[i].1 && w[i].0 / m == a / m + i
                    && w[i].1 / m == a / m + i
            &&& forall|i: int, v: int|
                0 <= i < w.len() ==> (#[trigger] in_window(w[i], v) <==> a <= v <= b && v / m == a
                    / m + i)
        }),
{
    let w = axis_windows_spec(a, b, m);
    vstd::arithmetic::div_mod::lemma_div_is_ordered(a, b, m);
    vstd::arithmetic::div_mod::lemma_fundamental_div_mod(a, m);
    vstd::arithmetic::div_mod::lemma_fundamental_div_mod(b, m);
    assert forall|i: int, v: int| 0 <= i < w.len() implies (#[trigger] in_window(w[i], v) <==> a
        <= v <= b && v / m == a / m + i) by {
        let c = a / m + i;
        if c * m <= v <= c * m + m - 1 {
            vstd::arithmetic::div_mod::lemma_fundamental_div_mod_converse(v, m, c, v - c * m);
        }
        if v / m == c {
            vstd::arithmetic::div_mod::lemma_fundamental_div_mod(v, m);
            assert(c * m <= v <= c * m + m - 1) by (nonlinear_arith)
                requires
                    v == m * (v / m) + v % m,
                    0 <= v % m < m,
                    v / m == c,
            ;
        }
    }
    assert forall|i: int| 0 <= i < w.len() implies #[trigger] w[i].0 <= w[i].1 && w[i].0 / m == a
        / m + i && w[i].1 / m == a / m + i by {
        let c = a / m + i;
        // the block numbered `c` meets `[a, b]`
        assert(c * m <= b) by (nonlinear_arith)
            requires
                c <= b / m,
                b == m * (b / m) + b % m,
                0 <= b % m,
                m > 0,
        ;
        assert(a <= c * m + m - 1) by (nonlinear_arith)
            requires
                c >= a / m,
                a == m * (a / m) + a % m,
                a % m < m,
                m > 0,
        ;
        assert(w[i].0 <= w[i].1);
        assert(in_window(w[i], w[i].0));
        assert(in_window(w[i], w[i].1));
    }
    assert forall|i: int| 0 <= i < w.len() - 1 implies #[trigger] w[i + 1].0 == w[i].1 + 1 by {
        let c = a / m + i;
        assert(c * m + m - 1 < b) by (nonlinear_arith)
            requires
                c + 1 <= b / m,
                b == m * (b / m) + b % m,
                0 <= b % m,
                m > 0,
        ;
        assert(a < (c + 1) * m) by (nonlinear_arith)
            requires
                c >= a / m,
                a == m * (a / m) + a % m,
                a % m < m,
                m > 0,
        ;
        assert((c + 1) * m == c * m + m) by (nonlinear_arith);
    }
    assert(w[0].0 == a) by {
        assert((a / m) * m <= a) by (nonlinear_arith)
            requires
                a == m * (a / m) + a % m,
                0 <= a % m,
        ;
    }
    assert(w[w.len() - 1].1 == b) by {
        assert(b <= (b / m) * m + m - 1) by (nonlinear_arith)
            requires
                b == m * (b / m) + b % m,
                b % m < m,
        ;
    }
}

/// A part of a block of `m` values placed back in the world: the block's start plus the
/// part's offsets in it give the part again.
proof fn lemma_window_rejoins(lo: int, hi: int, m: int)
    requires
        m > 0,
        lo / m == hi / m,
    ensures
        (lo / m) * m + lo % m == lo,
        (lo / m) * m + hi % m == hi,
        0 <= lo % m < m,
        0 <= hi % m < m,
{
    vstd::arithmetic::div_mod::lemma_fundamental_div_mod(lo, m);
    vstd::arithmetic::div_mod::lemma_fundamental_div_mod(hi, m);
    assert((lo / m) * m == m * (lo / m)) by (nonlinear_arith);
    assert((hi / m) * m == m * (hi / m)) by (nonlinear_arith);
}

/// An entry of the flattened product of three sequences of lengths `nx`, `ny` and `nz`
/// names an element of each.
proof fn lemma_split_index_bounds(k: int, nx: int, ny: int, nz: int)
    requires
        nx >= 1,
        ny >= 1,
        nz >= 1,
        0 <= k < nx * ny * nz,
    ensures
        0 <= k % nz < nz,
        0 <= (k / nz) % ny < ny,
        0 <= k / (nz * ny) < nx,
{
    vstd::arithmetic::div_mod::lemma_mod_bound(k, nz);
    vstd::arithmetic::div_mod::lemma_div_pos_is_pos(k, nz);
    vstd::arithmetic::div_mod::lemma_mod_bound(k / nz, ny);
    assert(nz * ny > 0) by (nonlinear_arith)
        requires
            nz >= 1,
            ny >= 1,
    ;
    vstd::arithmetic::div_mod::lemma_div_pos_is_pos(k, nz * ny);
    assert(nx * ny * nz == nx * (nz * ny)) by (nonlinear_arith);
    if k / (nz * ny) >= nx {
        vstd::arithmetic::div_mod::lemma_fundamental_div_mod(k, nz * ny);
        assert(k >= nx * (nz * ny)) by (nonlinear_arith)
            requires
                k == (nz * ny) * (k / (nz * ny)) + k % (nz * ny),
                k % (nz * ny) >= 0,
                k / (nz * ny) >= nx,
                nz * ny > 0,
        ;
    }
}

/// Splitting a range across slabs loses and duplicates no block: a block of the world lies in
/// the extent of one of the slab changes exactly when it lies in the range, and then in only
/// one of them.
pub proof fn lemma_split_partitions_range<B>(
    ax: int,
    bx: int,
    ay: int,
    by: int,
    az: int,
    bz: int,
    bt: B,
    p: (int, int, int),
)
    requires
        ax <= bx,
        ay <= by,
        az <= bz,
        i32::MIN <= ax && bx <= i32::MAX,
        i32::MIN <= ay && by <= i32::MAX,
        i32::MIN <= az && bz <= i32::MAX,
    ensures
        ({
            let r = split_spec(ax, bx, ay, by, az, bz, bt);
            &&& (ax <= p.0 <= bx && ay <= p.1 <= by && az <= p.2 <= bz) <==> exists|k: int|
                0 <= k < r.len() && #[trigger] update_covers(r[k], p)
            &&& forall|k1: int, k2: int|
                0 <= k1 < r.len() && 0 <= k2 < r.len() && #[trigger] update_covers(r[k1], p)
                    && #[trigger] update_covers(r[k2], p) ==> k1 == k2
        }),
{
    let r = split_spec(ax, bx, ay, by, az, bz, bt);
    let wx = axis_windows_spec(ax, bx, 16);
    let wy = axis_windows_spec(ay, by, 16);
    let wz = axis_windows_spec(az, bz, 32);
    lemma_axis_windows_partition(ax, bx, 16);
    lemma_axis_windows_partition(ay, by, 16);
    lemma_axis_windows_partition(az, bz, 32);
    let nx = wx.len() as int;
    let ny = wy.len() as int;
    let nz = wz.len() as int;
    // an entry covers the block exactly when each of its windows holds the block's coordinate
    assert forall|k: int| 0 <= k < r.len() implies #[trigger] update_covers(r[k], p) == (
    in_window(wx[k / (nz * ny)], p.0) && in_window(wy[(k / nz) % ny], p.1) && in_window(
        wz[k % nz],
        p.2,
    )) by {
        let iz = k % nz;
        let iy = (k / nz) % ny;
        let ix = k / (nz * ny);
        assert(r.len() == nx * ny * nz);
        lemma_split_index_bounds(k, nx, ny, nz);
        lemma_window_rejoins(wx[ix].0, wx[ix].1, 16);
        lemma_window_rejoins(wy[iy].0, wy[iy].1, 16);
        lemma_window_rejoins(wz[iz].0, wz[iz].1, 32);
        assert(r[k] == cuboid_update(wx[ix], wy[iy], wz[iz], bt));
    }
    if ax <= p.0 <= bx && ay <= p.1 <= by && az <= p.2 <= bz {
        let ix = p.0 / 16 - ax / 16;
        let iy = p.1 / 16 - ay / 16;
        let iz = p.2 / 32 - az / 32;
        vstd::arithmetic::div_mod::lemma_div_is_ordered(ax, p.0, 16);
        vstd::arithmetic::div_mod::lemma_div_is_ordered(p.0, bx, 16);
        vstd::arithmetic::div_mod::lemma_div_is_ordered(ay, p.1, 16);
        vstd::arithmetic::div_mod::lemma_div_is_ordered(p.1, by, 16);
        vstd::arithmetic::div_mod::lemma_div_is_ordered(az, p.2, 32);
        vstd::arithmetic::div_mod::lemma_div_is_ordered(p.2, bz, 32);
        let k = (ix * ny + iy) * nz + iz;
        assert(0 <= k < nx * ny * nz) by (nonlinear_arith)
            requires
                k == (ix * ny + iy) * nz + iz,
                0 <= ix < nx,
                0 <= iy < ny,
                0 <= iz < nz,
        ;
        vstd::arithmetic::div_mod::lemma_fundamental_div_mod_converse(k, nz, ix * ny + iy, iz);
        vstd::arithmetic::div_mod::lemma_fundamental_div_mod_converse(ix * ny + iy, ny, ix, iy);
        vstd::arithmetic::div_mod::lemma_div_denominator(k, nz, ny);
        assert(in_window(wx[ix], p.0));
        assert(in_window(wy[iy], p.1));
        assert(in_window(wz[iz], p.2));
        assert(update_covers(r[k], p));
    }
    assert forall|k: int| 0 <= k < r.len() && #[trigger] update_covers(r[k], p) implies ax <= p.0
        <= bx && ay <= p.1 <= by && az <= p.2 <= bz && k == ((p.0 / 16 - ax / 16) * ny + (p.1
        / 16 - ay / 16)) * nz + (p.2 / 32 - az / 32) by {
        let iz = k % nz;
        let iy = (k / nz) % ny;
        let ix = k / (nz * ny);
        lemma_split_index_bounds(k, nx, ny, nz);
        assert(in_window(wx[ix], p.0));
        assert(in_window(wy[iy], p.1));
        assert(in_window(wz[iz], p.2));
        vstd::arithmetic::div_mod::lemma_fundamental_div_mod(k, nz);
        vstd::arithmetic::div_mod::lemma_fundamental_div_mod(k / nz, ny);
        vstd::arithmetic::div_mod::lemma_div_denominator(k, nz, ny);
        assert(k == (ix * ny + iy) * nz + iz) by (nonlinear_arith)
            requires
                k == nz * (k / nz) + k % nz,
                k / nz == ny * ((k / nz) / ny) + (k / nz) % ny,
                (k / nz) / ny == ix,
                iy == (k / nz) % ny,
                iz == k % nz,
        ;
    }
}

/// The update's range can be split by slab: a range update stays within the bounds that
/// splitting supports.
pub open spec fn splittable<B>(u: WorldTerrainUpdate<B>) -> bool {
    let ((ax, bx), (ay, by), (az, bz)) = world_range_bounds(u.0.0);
    u.0.0 is Range ==> split_fits(bx as int, by as int, bz as int)
}

/// A world update split into the updates of each slab it touches, with their slabs.
pub open spec fn slab_updates_of<B>(u: WorldTerrainUpdate<B>) -> Seq<(SlabLocation, SlabTerrainUpdate<B>)> {
    match u.0.0 {
        WorldRange::Single(pos) => seq![
            (
                SlabLocation {
                    slab: (pos.2 as int / SLAB_SIZE_I32 as int) as i32,
                    chunk: ChunkPosition(
                        (pos.0 as int / CHUNK_SIZE_I32 as int) as i32,
                        (pos.1 as int / CHUNK_SIZE_I32 as int) as i32,
                    ),
                },
                GenericTerrainUpdate(
                    WorldRange::Single(
                        slab_position_spec((pos.0 as int, pos.1 as int, pos.2 as int)),
                    ),
                    u.0.1,
                ),
            ),
        ],
        WorldRange::Range(_, _) => {
            let ((ax, bx), (ay, by), (az, bz)) = world_range_bounds(u.0.0);
            split_spec(ax as int, bx as int, ay as int, by as int, az as int, bz as int, u.0.1)
        },
    }
}

impl<B: Copy> WorldTerrainUpdate<B> {
    pub fn new(range: WorldRange<WorldPosition>, block_type: B) -> (r: Self)
        ensures
            r == WorldTerrainUpdate(GenericTerrainUpdate(range, block_type)),
    {
        WorldTerrainUpdate(GenericTerrainUpdate(range, block_type))
    }

    pub fn inner(&self) -> (r: &GenericTerrainUpdate<WorldPosition, B>)
        ensures
            *r == self.0,
    {
        &self.0
    }

    /// Whether the change can be split by slab: see [splittable].
    pub fn is_splittable(&self) -> (r: bool)
        ensures
            r == splittable(*self),
    {
        let range = self.0.0;
        match range {
            WorldRange::Single(_) => true,
            WorldRange::Range(_, _) => {
                let (x, y, z) = range.ranges();
                x.1 <= i32::MAX - CHUNK_SIZE_I32 && y.1 <= i32::MAX - CHUNK_SIZE_I32 && z.1 <= i32::MAX - SLAB_SIZE_I32
            },
        }
    }

    /// The change, split into the changes of each slab it touches.
    pub fn into_slab_updates(self) -> (r: Vec<(SlabLocation, SlabTerrainUpdate<B>)>)
        requires
            splittable(self),
        ensures
            r@ == slab_updates_of(self),
    {
        let WorldTerrainUpdate(GenericTerrainUpdate(range, block_type)) = self;
        match range {
            WorldRange::Single(pos) => {
                let chunk = pos.chunk();
                let block = slab_position_of(pos);
                let slab = pos.2.checked_div_euclid(SLAB_SIZE_I32).unwrap();
                let mut out: Vec<(SlabLocation, SlabTerrainUpdate<B>)> = Vec::new();
                out.push(
                    (SlabLocation::new(slab, chunk), GenericTerrainUpdate(WorldRange::Single(block), block_type)),
                );
                out
            },
            WorldRange::Range(_, _) => split_range_across_slabs(range, block_type),
        }
    }
}


/// What becomes of the terrain updates of a slab this tick.
#[derive(Debug, Copy, Clone, PartialEq, Eq, Structural)]
pub enum UpdateApplication {
    /// Pop updates from set and apply now
    Apply,
    /// Don't apply now, defer until another tick
    Defer,
    /// Don't apply ever, remove from set
    Drop,
}

/// Updates of a slab are applied when its chunk is loaded and the slab is done loading,
/// deferred while the slab is still loading, and dropped when the chunk is not loaded.
#[verifier::opaque]
pub open spec fn application_of(world: World, slab: SlabLocation) -> UpdateApplication {
    let chunks = world.chunks_view();
    if exists|i: int| 0 <= i < chunks.len() && (#[trigger] chunks[i]).pos_view() == slab.chunk {
        let i = choose|i: int| 0 <= i < chunks.len() && (#[trigger] chunks[i]).pos_view() == slab.chunk;
        if chunks[i].status(slab.slab) == SlabLoadingStatus::Done {
            UpdateApplication::Apply
        } else {
            UpdateApplication::Defer
        }
    } else {
        UpdateApplication::Drop
    }
}

/// Decides, for each slab in turn, what becomes of its updates.
pub fn classify_slab_updates(world: &World, slabs: &[SlabLocation]) -> (r: Vec<UpdateApplication>)
    requires
        world.wf(),
    ensures
        r@.len() == slabs@.len(),
        forall|i: int| 0 <= i < slabs@.len() ==> r@[i] == application_of(*world, #[trigger] slabs@[i]),
{
    let mut chunks_iter = ContiguousChunkIterator::new(world);
    let mut out: Vec<UpdateApplication> = Vec::new();
    let mut i: usize = 0;
    while i < slabs.len()
        invariant
            world.wf(),
            chunks_iter.wf(),
            chunks_iter.world_view() == *world,
            i <= slabs@.len(),
            out@.len() == i,
            forall|j: int| 0 <= j < i ==> out@[j] == application_of(*world, #[trigger] slabs@[j]),
        decreases slabs@.len() - i,
    {
        let slab = slabs[i];
        proof {
            reveal(application_of);
        }
        let application = match chunks_iter.next(slab.chunk) {
            Some(chunk) => {
                proof {
                    let chunks = world.chunks_view();
                    let k = choose|k: int| 0 <= k < chunks.len() && *chunk == #[trigger] chunks[k] && chunk.pos_view() == slab.chunk;
                    let c = choose|c: int| 0 <= c < chunks.len() && (#[trigger] chunks[c]).pos_view() == slab.chunk;
                    world.lemma_chunk_positions_distinct(k, c);
                }
                if chunk.is_slab_loaded(slab.slab) {
                    UpdateApplication::Apply
                } else {
                    UpdateApplication::Defer
                }
            },
            None => UpdateApplication::Drop,
        };
        out.push(application);
        i = i + 1;
    }
    out
}

/// Slab `a` comes before slab `b`: by chunk x, then chunk y, then slab index.
pub open spec fn slab_lt(a: SlabLocation, b: SlabLocation) -> bool {
    a.chunk.0 < b.chunk.0 || (a.chunk.0 == b.chunk.0 && (a.chunk.1 < b.chunk.1 || (a.chunk.1
        == b.chunk.1 && a.slab < b.slab)))
}

fn slab_less(a: SlabLocation, b: SlabLocation) -> (r: bool)
    ensures
        r == slab_lt(a, b),
{
    a.chunk.0 < b.chunk.0 || (a.chunk.0 == b.chunk.0 && (a.chunk.1 < b.chunk.1 || (a.chunk.1
        == b.chunk.1 && a.slab < b.slab)))
}

/// A slab update, tagged with the index of the world update it came from.
pub type TaggedSlabUpdate<B> = (usize, SlabLocation, SlabTerrainUpdate<B>);

/// The slab updates of the first `n` world updates, in order, each tagged with the index of
/// its world update.
#[verifier::opaque]
pub open spec fn tagged_slab_updates<B>(updates: Seq<WorldTerrainUpdate<B>>, n: int) -> Seq<TaggedSlabUpdate<B>>
    decreases n,
{
    if n <= 0 {
        Seq::empty()
    } else {
        tagged_slab_updates(updates, n - 1) + slab_updates_of(updates[n - 1]).map_values(
            |e: (SlabLocation, SlabTerrainUpdate<B>)| ((n - 1) as usize, e.0, e.1),
        )
    }
}

/// The updates among the first `n` tagged ones that are of slab `slab`, in order.
pub open spec fn updates_of_slab<B>(all: Seq<TaggedSlabUpdate<B>>, slab: SlabLocation, n: int) -> Seq<SlabTerrainUpdate<B>>
    decreases n,
{
    if n <= 0 {
        Seq::empty()
    } else if all[n - 1].1 == slab {
        updates_of_slab(all, slab, n - 1).push(all[n - 1].2)
    } else {
        updates_of_slab(all, slab, n - 1)
    }
}

/// Among the first `n` tagged updates, one of world update `i` is applied or dropped.
pub open spec fn settled_within<B>(world: World, all: Seq<TaggedSlabUpdate<B>>, i: int, n: int) -> bool {
    exists|k: int|
        0 <= k < n && (#[trigger] all[k]).0 == i && application_of(world, all[k].1)
            != UpdateApplication::Defer
}

/// Some update among the first `n` is of slab `s`.
#[verifier::opaque]
pub open spec fn has_update_of<B>(all: Seq<TaggedSlabUpdate<B>>, s: SlabLocation, n: int) -> bool {
    exists|k: int| 0 <= k < n && (#[trigger] all[k]).1 == s
}

/// Some group is of slab `s`.
#[verifier::opaque]
pub open spec fn has_group<B>(groups: Seq<(SlabLocation, Seq<SlabTerrainUpdate<B>>)>, s: SlabLocation) -> bool {
    exists|a: int| 0 <= a < groups.len() && (#[trigger] groups[a]).0 == s
}

/// The groups' slabs are in strictly increasing order.
pub open spec fn groups_sorted<B>(groups: Seq<(SlabLocation, Seq<SlabTerrainUpdate<B>>)>) -> bool {
    forall|a: int, b: int| 0 <= a < b < groups.len() ==> slab_lt(#[trigger] groups[a].0, #[trigger] groups[b].0)
}

/// A group is of a slab whose updates are applied, with every update of that slab among the
/// first `n`, in order, and at least one.
pub open spec fn group_ok<B>(
    world: World,
    all: Seq<TaggedSlabUpdate<B>>,
    g: (SlabLocation, Seq<SlabTerrainUpdate<B>>),
    n: int,
) -> bool {
    &&& application_of(world, g.0) == UpdateApplication::Apply
    &&& g.1 == updates_of_slab(all, g.0, n)
    &&& has_update_of(all, g.0, n)
}

/// The slabs to update now, in increasing order, each with its updates: every slab among the
/// first `n` updates whose updates are applied, once, with the updates of it in their order.
#[verifier::opaque]
pub open spec fn plan_groups_ok<B>(
    world: World,
    all: Seq<TaggedSlabUpdate<B>>,
    groups: Seq<(SlabLocation, Seq<SlabTerrainUpdate<B>>)>,
    n: int,
) -> bool {
    &&& groups_sorted(groups)
    &&& forall|a: int| 0 <= a < groups.len() ==> group_ok(world, all, #[trigger] groups[a], n)
    &&& forall|k: int|
        0 <= k < n && application_of(world, (#[trigger] all[k]).1) == UpdateApplication::Apply
            ==> has_group(groups, all[k].1)
}

pub open spec fn groups_view<B>(g: Seq<(SlabLocation, Vec<SlabTerrainUpdate<B>>)>) -> Seq<(SlabLocation, Seq<SlabTerrainUpdate<B>>)> {
    g.map_values(|e: (SlabLocation, Vec<SlabTerrainUpdate<B>>)| (e.0, e.1@))
}

/// Splits the pending world updates into slab updates and decides what becomes of each slab's
/// updates this tick. Returns the slabs to update now, in increasing order of chunk and slab,
/// each with its updates in the order of the world updates they came from; and the indices, in
/// increasing order, of the world updates to take out of the pending set: those with a slab
/// update that is applied or dropped.
pub fn plan_terrain_updates<B: Copy>(world: &World, updates: &[WorldTerrainUpdate<B>]) -> (r: (
    Vec<(SlabLocation, Vec<SlabTerrainUpdate<B>>)>,
    Vec<usize>,
))
    requires
        world.wf(),
        forall|i: int| 0 <= i < updates@.len() ==> splittable(#[trigger] updates@[i]),
    ensures
        ({
            let all = tagged_slab_updates(updates@, updates@.len() as int);
            plan_groups_ok(*world, all, groups_view(r.0@), all.len() as int)
        }),
        forall|a: int, b: int| 0 <= a < b < r.1@.len() ==> #[trigger] r.1@[a] < #[trigger] r.1@[b],
        forall|i: int|
            0 <= i < updates@.len() ==> (r.1@.contains(i as usize) <==> settled_within(
                *world,
                tagged_slab_updates(updates@, updates@.len() as int),
                i,
                tagged_slab_updates(updates@, updates@.len() as int).len() as int,
            )),
        forall|j: int| 0 <= j < r.1@.len() ==> #[trigger] r.1@[j] < updates@.len(),
{
    // translate world -> slab updates, preserving original mapping
    let mut all: Vec<TaggedSlabUpdate<B>> = Vec::new();
    proof {
        reveal(tagged_slab_updates);
    }
    let mut i: usize = 0;
    while i < updates.len()
        invariant
            i <= updates@.len(),
            forall|j: int| 0 <= j < updates@.len() ==> splittable(#[trigger] updates@[j]),
            all@ == tagged_slab_updates(updates@, i as int),
        decreases updates@.len() - i,
    {
        proof {
            if i == 0 {
                reveal(tagged_slab_updates);
            }
        }
        let split = updates[i].into_slab_updates();
        let ghost before = all@;
        let mut j: usize = 0;
        while j < split.len()
            invariant
                j <= split@.len(),
                split@ == slab_updates_of(updates@[i as int]),
                all@ == before + split@.take(j as int).map_values(
                    |e: (SlabLocation, SlabTerrainUpdate<B>)| (i, e.0, e.1),
                ),
            decreases split@.len() - j,
        {
            let (slab, update) = split[j];
            all.push((i, slab, update));
            assert(split@.take(j + 1) =~= split@.take(j as int).push(split@[j as int]));
            assert(all@ =~= before + split@.take(j + 1).map_values(
                |e: (SlabLocation, SlabTerrainUpdate<B>)| (i, e.0, e.1),
            ));
            j = j + 1;
        }
        assert(split@.take(j as int) =~= split@);
        assert(all@ =~= tagged_slab_updates(updates@, i + 1)) by {
            reveal(tagged_slab_updates);
        }
        i = i + 1;
    }
    let ghost allv = all@;
    proof {
        lemma_tags_below(updates@, updates@.len() as int);
    }

    let mut slabs: Vec<SlabLocation> = Vec::new();
    let mut k: usize = 0;
    while k < all.len()
        invariant
            all@ == allv,
            k <= allv.len(),
            slabs@.len() == k,
            forall|j: int| 0 <= j < k ==> #[trigger] slabs@[j] == allv[j].1,
        decreases allv.len() - k,
    {
        slabs.push(all[k].1);
        k = k + 1;
    }
    let applications = classify_slab_updates(world, &slabs);
    assert forall|j: int| 0 <= j < allv.len() implies applications@[j] == application_of(*world, #[trigger] allv[j].1) by {
        assert(slabs@[j] == allv[j].1);
    }

    let mut settled: Vec<bool> = Vec::new();
    while settled.len() < updates.len()
        invariant
            settled@.len() <= updates@.len(),
            forall|j: int| 0 <= j < settled@.len() ==> !(#[trigger] settled@[j]),
        decreases updates@.len() - settled@.len(),
    {
        settled.push(false);
    }

    let mut groups: Vec<(SlabLocation, Vec<SlabTerrainUpdate<B>>)> = Vec::new();
    proof {
        lemma_groups_empty(*world, allv);
        assert(groups_view(groups@) =~= Seq::<(SlabLocation, Seq<SlabTerrainUpdate<B>>)>::empty());
    }
    let mut k: usize = 0;
    while k < all.len()
        invariant
            all@ == allv,
            allv == tagged_slab_updates(updates@, updates@.len() as int),
            k <= allv.len(),
            applications@.len() == allv.len(),
            forall|j: int| 0 <= j < allv.len() ==> applications@[j] == application_of(*world, #[trigger] allv[j].1),
            forall|j: int| 0 <= j < allv.len() ==> (#[trigger] allv[j]).0 < updates@.len(),
            settled@.len() == updates@.len(),
            forall|i: int| 0 <= i < updates@.len() ==> (#[trigger] settled@[i] <==> settled_within(*world, allv, i, k as int)),
            plan_groups_ok(*world, allv, groups_view(groups@), k as int),
        decreases allv.len() - k,
    {
        let (idx, slab, update) = all[k];
        let application = applications[k];
        let ghost old_groups = groups_view(groups@);
        let ghost old_settled = settled@;
        if application != UpdateApplication::Defer {
            settled.set(idx, true);
        }
        proof {
            lemma_settled_step(*world, allv, old_settled, settled@, k as int, idx as int);
        }
        if application == UpdateApplication::Apply {
            add_to_group(&mut groups, Ghost(*world), Ghost(allv), k, slab, update);
        } else {
            proof {
                lemma_groups_skip(*world, allv, groups_view(groups@), k as int);
            }
        }
        k = k + 1;
    }

    let mut taken: Vec<usize> = Vec::new();
    let mut i: usize = 0;
    while i < settled.len()
        invariant
            settled@.len() == updates@.len(),
            allv == tagged_slab_updates(updates@, updates@.len() as int),
            forall|j: int| 0 <= j < updates@.len() ==> (#[trigger] settled@[j] <==> settled_within(*world, allv, j, allv.len() as int)),
            i <= settled@.len(),
            forall|a: int, b: int| 0 <= a < b < taken@.len() ==> #[trigger] taken@[a] < #[trigger] taken@[b],
            forall|j: int| 0 <= j < taken@.len() ==> #[trigger] taken@[j] < i,
            forall|j: int| 0 <= j < i ==> (taken@.contains(j as usize) <==> #[trigger] settled@[j]),
        decreases settled@.len() - i,
    {
        let ghost before = taken@;
        if settled[i] {
            taken.push(i);
            assert(taken@[before.len() as int] == i);
        }
        assert forall|j: int| 0 <= j < i + 1 implies (taken@.contains(j as usize) <==> #[trigger] settled@[j]) by {
            if j < i {
                if before.contains(j as usize) {
                    let w = choose|w: int| 0 <= w < before.len() && before[w] == j as usize;
                    assert(taken@[w] == j as usize);
                }
                if taken@.contains(j as usize) {
                    let w = choose|w: int| 0 <= w < taken@.len() && taken@[w] == j as usize;
                    assert(w < before.len());
                    assert(before[w] == j as usize);
                }
            } else if settled@[j] {
                assert(taken@[before.len() as int] == j as usize);
            } else if taken@.contains(j as usize) {
                let w = choose|w: int| 0 <= w < taken@.len() && taken@[w] == j as usize;
                assert(taken@[w] < i);
            }
        }
        i = i + 1;
    }
    assert forall|i: int| 0 <= i < updates@.len() implies (taken@.contains(i as usize) <==> settled_within(
        *world,
        allv,
        i,
        allv.len() as int,
    )) by {
        assert(taken@.contains(i as usize) <==> settled@[i]);
    }
    (groups, taken)
}

proof fn lemma_tags_below<B>(updates: Seq<WorldTerrainUpdate<B>>, n: int)
    requires
        0 <= n <= updates.len(),
    ensures
        forall|j: int|
            0 <= j < tagged_slab_updates(updates, n).len() ==> (#[trigger] tagged_slab_updates(updates, n)[j]).0 < n,
    decreases n,
{
    reveal(tagged_slab_updates);
    if n > 0 {
        lemma_tags_below(updates, n - 1);
        let prev = tagged_slab_updates(updates, n - 1);
        let cur = tagged_slab_updates(updates, n);
        assert forall|j: int| 0 <= j < cur.len() implies (#[trigger] cur[j]).0 < n by {
            if j < prev.len() {
                assert(cur[j] == prev[j]);
            }
        }
    }
}

proof fn lemma_settled_step<B>(
    world: World,
    all: Seq<TaggedSlabUpdate<B>>,
    before: Seq<bool>,
    after: Seq<bool>,
    k: int,
    idx: int,
)
    requires
        0 <= k < all.len(),
        all[k].0 == idx,
        0 <= idx < before.len(),
        forall|i: int| 0 <= i < before.len() ==> (#[trigger] before[i] <==> settled_within(world, all, i, k)),
        after == if application_of(world, all[k].1) != UpdateApplication::Defer {
            before.update(idx, true)
        } else {
            before
        },
    ensures
        forall|i: int| 0 <= i < after.len() ==> (#[trigger] after[i] <==> settled_within(world, all, i, k + 1)),
{
    assert forall|i: int| 0 <= i < after.len() implies (#[trigger] after[i] <==> settled_within(world, all, i, k + 1)) by {
        assert(before[i] <==> settled_within(world, all, i, k));
        if settled_within(world, all, i, k + 1) && !settled_within(world, all, i, k) {
            let w = choose|w: int| 0 <= w < k + 1 && (#[trigger] all[w]).0 == i && application_of(world, all[w].1) != UpdateApplication::Defer;
            assert(w == k);
        }
        if settled_within(world, all, i, k) {
            let w = choose|w: int| 0 <= w < k && (#[trigger] all[w]).0 == i && application_of(world, all[w].1) != UpdateApplication::Defer;
            assert(0 <= w < k + 1 && all[w].0 == i);
        }
        if i == idx && application_of(world, all[k].1) != UpdateApplication::Defer {
            assert(0 <= k < k + 1 && all[k].0 == i);
        }
    }
}

proof fn lemma_groups_empty<B>(world: World, all: Seq<TaggedSlabUpdate<B>>)
    ensures
        plan_groups_ok(world, all, Seq::<(SlabLocation, Seq<SlabTerrainUpdate<B>>)>::empty(), 0),
{
    reveal(plan_groups_ok);
}

/// A slab update that is not applied leaves the groups as they were.
proof fn lemma_groups_skip<B>(world: World, all: Seq<TaggedSlabUpdate<B>>, groups: Seq<(SlabLocation, Seq<SlabTerrainUpdate<B>>)>, k: int)
    requires
        0 <= k < all.len(),
        plan_groups_ok(world, all, groups, k),
        application_of(world, all[k].1) != UpdateApplication::Apply,
    ensures
        plan_groups_ok(world, all, groups, k + 1),
{
    reveal(plan_groups_ok);
    assert forall|a: int| 0 <= a < groups.len() implies group_ok(world, all, #[trigger] groups[a], k + 1) by {
        assert(group_ok(world, all, groups[a], k));
        assert(all[k].1 != groups[a].0);
        reveal(has_update_of);
        let j = choose|j: int| 0 <= j < k && (#[trigger] all[j]).1 == groups[a].0;
        assert(0 <= j < k + 1 && all[j].1 == groups[a].0);
    }
}

/// An applied update of a slab that has a group joins the end of that group.
proof fn lemma_groups_extend<B>(
    world: World,
    all: Seq<TaggedSlabUpdate<B>>,
    g0: Seq<(SlabLocation, Seq<SlabTerrainUpdate<B>>)>,
    p: int,
    k: int,
)
    requires
        0 <= k < all.len(),
        0 <= p < g0.len(),
        g0[p].0 == all[k].1,
        plan_groups_ok(world, all, g0, k),
        application_of(world, all[k].1) == UpdateApplication::Apply,
    ensures
        plan_groups_ok(world, all, g0.update(p, (g0[p].0, g0[p].1.push(all[k].2))), k + 1),
{
    reveal(plan_groups_ok);
    let g = g0.update(p, (g0[p].0, g0[p].1.push(all[k].2)));
    assert forall|a: int, b: int| 0 <= a < b < g.len() implies slab_lt(#[trigger] g[a].0, #[trigger] g[b].0) by {
        assert(slab_lt(g0[a].0, g0[b].0));
    }
    assert forall|a: int| 0 <= a < g.len() implies group_ok(world, all, #[trigger] g[a], k + 1) by {
        assert(group_ok(world, all, g0[a], k));
        reveal(has_update_of);
        let j = choose|j: int| 0 <= j < k && (#[trigger] all[j]).1 == g0[a].0;
        assert(0 <= j < k + 1 && all[j].1 == g0[a].0);
        if a != p {
            if a < p {
                assert(slab_lt(g0[a].0, g0[p].0));
            } else {
                assert(slab_lt(g0[p].0, g0[a].0));
            }
        }
    }
    assert forall|j: int|
        0 <= j < k + 1 && application_of(world, (#[trigger] all[j]).1) == UpdateApplication::Apply
            implies has_group(g, all[j].1) by {
        reveal(has_group);
        if j == k {
            assert(g[p].0 == all[j].1);
        } else {
            assert(has_group(g0, all[j].1));
            let a = choose|a: int| 0 <= a < g0.len() && (#[trigger] g0[a]).0 == all[j].1;
            assert(g[a].0 == all[j].1);
        }
    }
}

/// An applied update of a slab with no group yet starts a new group, in its place in the order.
proof fn lemma_groups_insert<B>(
    world: World,
    all: Seq<TaggedSlabUpdate<B>>,
    g0: Seq<(SlabLocation, Seq<SlabTerrainUpdate<B>>)>,
    p: int,
    k: int,
)
    requires
        0 <= k < all.len(),
        0 <= p <= g0.len(),
        forall|a: int| 0 <= a < p ==> slab_lt(#[trigger] g0[a].0, all[k].1),
        p < g0.len() ==> !slab_lt(g0[p].0, all[k].1) && g0[p].0 != all[k].1,
        plan_groups_ok(world, all, g0, k),
        application_of(world, all[k].1) == UpdateApplication::Apply,
    ensures
        plan_groups_ok(world, all, g0.insert(p, (all[k].1, seq![all[k].2])), k + 1),
{
    reveal(plan_groups_ok);
    let slab = all[k].1;
    let g = g0.insert(p, (slab, seq![all[k].2]));
    // no group is of the slab
    assert forall|a: int| 0 <= a < g0.len() implies (#[trigger] g0[a]).0 != slab by {
        if a > p {
            assert(slab_lt(g0[p].0, g0[a].0));
        }
    }
    // so no earlier update is of the slab
    assert forall|j: int| 0 <= j < k implies (#[trigger] all[j]).1 != slab by {
        if all[j].1 == slab {
            reveal(has_group);
            let a = choose|a: int| 0 <= a < g0.len() && (#[trigger] g0[a]).0 == all[j].1;
            assert(g0[a].0 != slab);
        }
    }
    lemma_no_updates_of_slab(all, slab, k);
    assert(updates_of_slab(all, slab, k + 1) =~= seq![all[k].2]);
    assert forall|a: int, b: int| 0 <= a < b < g.len() implies slab_lt(#[trigger] g[a].0, #[trigger] g[b].0) by {
        if b == p {
            assert(g[a] == g0[a]);
        } else if a == p {
            assert(g[b] == g0[b - 1]);
            if b - 1 > p {
                assert(slab_lt(g0[p].0, g0[b - 1].0));
            }
        } else if a < p && b > p {
            assert(g[a] == g0[a] && g[b] == g0[b - 1]);
            assert(slab_lt(g0[a].0, g0[b - 1].0));
        } else if a > p {
            assert(g[a] == g0[a - 1] && g[b] == g0[b - 1]);
            assert(slab_lt(g0[a - 1].0, g0[b - 1].0));
        } else {
            assert(g[a] == g0[a] && g[b] == g0[b]);
            assert(slab_lt(g0[a].0, g0[b].0));
        }
    }
    assert forall|a: int| 0 <= a < g.len() implies group_ok(world, all, #[trigger] g[a], k + 1) by {
        reveal(has_update_of);
        if a == p {
            assert(0 <= k < k + 1 && all[k].1 == g[a].0);
        } else {
            let a0 = if a < p { a } else { a - 1 };
            assert(g[a] == g0[a0]);
            assert(group_ok(world, all, g0[a0], k));
            let j = choose|j: int| 0 <= j < k && (#[trigger] all[j]).1 == g0[a0].0;
            assert(0 <= j < k + 1 && all[j].1 == g0[a0].0);
            assert(g0[a0].0 != slab);
        }
    }
    assert forall|j: int|
        0 <= j < k + 1 && application_of(world, (#[trigger] all[j]).1) == UpdateApplication::Apply
            implies has_group(g, all[j].1) by {
        reveal(has_group);
        if j == k {
            assert(g[p].0 == all[j].1);
        } else {
            assert(has_group(g0, all[j].1));
            let a = choose|a: int| 0 <= a < g0.len() && (#[trigger] g0[a]).0 == all[j].1;
            if a < p {
                assert(g[a].0 == all[j].1);
            } else {
                assert(g[a + 1].0 == all[j].1);
            }
        }
    }
}

/// Adds the `k`th slab update, which is applied, to its slab's group, making the group where
/// there is none yet, in its place in the order of slabs.
fn add_to_group<B: Copy>(
    groups: &mut Vec<(SlabLocation, Vec<SlabTerrainUpdate<B>>)>,
    Ghost(world): Ghost<World>,
    Ghost(all): Ghost<Seq<TaggedSlabUpdate<B>>>,
    k: usize,
    slab: SlabLocation,
    update: SlabTerrainUpdate<B>,
)
    requires
        k < all.len(),
        all[k as int].1 == slab,
        all[k as int].2 == update,
        application_of(world, slab) == UpdateApplication::Apply,
        plan_groups_ok(world, all, groups_view(old(groups)@), k as int),
    ensures
        plan_groups_ok(world, all, groups_view(final(groups)@), k + 1),
{
    let ghost g0 = groups_view(groups@);
    // the first group not before the slab
    let mut p: usize = 0;
    while p < groups.len() && slab_less(groups[p].0, slab)
        invariant
            p <= groups@.len(),
            groups_view(groups@) == g0,
            forall|a: int| 0 <= a < p ==> slab_lt(#[trigger] g0[a].0, slab),
        decreases groups@.len() - p,
    {
        p = p + 1;
    }
    if p < groups.len() && groups[p].0 == slab {
        let (s, mut ups) = groups.remove(p);
        ups.push(update);
        groups.insert(p, (s, ups));
        proof {
            assert(groups_view(groups@) =~= g0.update(p as int, (g0[p as int].0, g0[p as int].1.push(update))));
            lemma_groups_extend(world, all, g0, p as int, k as int);
        }
    } else {
        let mut ups: Vec<SlabTerrainUpdate<B>> = Vec::new();
        ups.push(update);
        groups.insert(p, (slab, ups));
        proof {
            assert(groups_view(groups@) =~= g0.insert(p as int, (slab, seq![update])));
            lemma_groups_insert(world, all, g0, p as int, k as int);
        }
    }
}

proof fn lemma_no_updates_of_slab<B>(all: Seq<TaggedSlabUpdate<B>>, slab: SlabLocation, n: int)
    requires
        0 <= n <= all.len(),
        forall|j: int| 0 <= j < n ==> (#[trigger] all[j]).1 != slab,
    ensures
        updates_of_slab(all, slab, n) == Seq::<SlabTerrainUpdate<B>>::empty(),
    decreases n,
{
    if n > 0 {
        lemma_no_updates_of_slab(all, slab, n - 1);
    }
}

} // verus!
