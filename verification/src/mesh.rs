use vstd::prelude::*;

verus! {

/// A rectangle of a mask: the column and row of its first cell, its width along the row and
/// its height across the rows.
pub type Quad = (usize, usize, usize, usize);

/// The row-major index of the first cell of the quad in a mask `wu` cells wide.
pub open spec fn quad_start(q: Quad, wu: int) -> int {
    q.1 * wu + q.0
}

/// Cell `c` of a mask `wu` cells wide and `hv` rows high lies in the quad.
pub open spec fn quad_contains(q: Quad, wu: int, hv: int, c: int) -> bool {
    &&& 0 <= c < wu * hv
    &&& q.0 <= c % wu < q.0 + q.2
    &&& q.1 <= c / wu < q.1 + q.3
}

/// The quad is not empty, lies inside the mask, and every cell in it is set.
pub open spec fn quad_valid(q: Quad, wu: int, hv: int, mask: Seq<bool>) -> bool {
    &&& q.2 >= 1
    &&& q.3 >= 1
    &&& q.0 + q.2 <= wu
    &&& q.1 + q.3 <= hv
    &&& forall|c: int| #[trigger] quad_contains(q, wu, hv, c) ==> mask[c]
}

/// Cell `c` lies in one of the first `k` quads.
pub open spec fn covered_before(quads: Seq<Quad>, k: int, wu: int, hv: int, c: int) -> bool {
    exists|k2: int| 0 <= k2 < k && #[trigger] quad_contains(quads[k2], wu, hv, c)
}

/// The cell at column `x` of row `y` is not set, or one of the first `k` quads holds it.
pub open spec fn blocked(mask: Seq<bool>, quads: Seq<Quad>, k: int, wu: int, hv: int, x: int, y: int) -> bool {
    !mask[y * wu + x] || covered_before(quads, k, wu, hv, y * wu + x)
}

/// The quads split the set cells of a mask `wu` cells wide and `hv` rows high between them,
/// each set cell in exactly one quad, as the greedy mesher finds them: each quad starts at
/// the first set cell, in row-major order, that no earlier quad holds; it stretches along its
/// row as far as the set cells that no earlier quad holds go, then over as many following rows
/// as are set and free under its whole width.
pub open spec fn greedy_mesh(mask: Seq<bool>, wu: int, hv: int, quads: Seq<Quad>) -> bool {
    &&& forall|k: int| 0 <= k < quads.len() ==> quad_valid(#[trigger] quads[k], wu, hv, mask)
    &&& forall|c: int|
        0 <= c < wu * hv && mask[c] ==> exists|k: int|
            0 <= k < quads.len() && #[trigger] quad_contains(quads[k], wu, hv, c)
    &&& forall|c: int, k1: int, k2: int|
        0 <= k1 < quads.len() && 0 <= k2 < quads.len() && #[trigger] quad_contains(
            quads[k1],
            wu,
            hv,
            c,
        ) && #[trigger] quad_contains(quads[k2], wu, hv, c) ==> k1 == k2
    &&& forall|k1: int, k2: int|
        0 <= k1 < k2 < quads.len() ==> quad_start(#[trigger] quads[k1], wu) < quad_start(
            #[trigger] quads[k2],
            wu,
        )
    &&& forall|k: int, c: int|
        #![trigger quad_start(quads[k], wu), mask[c]]
        0 <= k < quads.len() && 0 <= c < quad_start(quads[k], wu) && mask[c] ==> covered_before(
            quads,
            k,
            wu,
            hv,
            c,
        )
    &&& forall|k: int|
        0 <= k < quads.len() && (#[trigger] quads[k]).0 + quads[k].2 < wu ==> blocked(
            mask,
            quads,
            k,
            wu,
            hv,
            quads[k].0 + quads[k].2,
            quads[k].1 as int,
        )
    &&& forall|k: int|
        0 <= k < quads.len() && (#[trigger] quads[k]).1 + quads[k].3 < hv ==> exists|x: int|
            quads[k].0 <= x < quads[k].0 + quads[k].2 && #[trigger] blocked(
                mask,
                quads,
                k,
                wu,
                hv,
                x,
                quads[k].1 + quads[k].3,
            )
}

/// The row-major index of the cell at column `x` of row `y` of a mask `wu` cells wide.
pub open spec fn cell(wu: int, x: int, y: int) -> int {
    y * wu + x
}

/// A cell given by column and row lies in the mask, and reads back as that column and row.
proof fn lemma_cell(wu: int, hv: int, x: int, y: int)
    requires
        0 <= x < wu,
        0 <= y < hv,
    ensures
        0 <= cell(wu, x, y) < wu * hv,
        cell(wu, x, y) % wu == x,
        cell(wu, x, y) / wu == y,
{
    assert(0 <= y * wu + x < wu * hv) by (nonlinear_arith)
        requires
            0 <= x < wu,
            0 <= y < hv,
    ;
    vstd::arithmetic::div_mod::lemma_fundamental_div_mod_converse(y * wu + x, wu, y, x);
}

/// Every cell of the mask is the cell of its column and row.
proof fn lemma_cell_of(wu: int, hv: int, c: int)
    requires
        0 <= c < wu * hv,
        wu > 0,
    ensures
        0 <= c % wu < wu,
        0 <= c / wu < hv,
        c == cell(wu, c % wu, c / wu),
{
    vstd::arithmetic::div_mod::lemma_fundamental_div_mod(c, wu);
    vstd::arithmetic::div_mod::lemma_mod_bound(c, wu);
    assert(c == (c / wu) * wu + c % wu) by (nonlinear_arith)
        requires
            c == wu * (c / wu) + c % wu,
    ;
    assert(0 <= c / wu < hv) by (nonlinear_arith)
        requires
            0 <= c < wu * hv,
            wu > 0,
            c == wu * (c / wu) + c % wu,
            0 <= c % wu < wu,
    ;
}

/// A cell lies in a quad exactly when its column and row do.
proof fn lemma_quad_cell(q: Quad, wu: int, hv: int, x: int, y: int)
    requires
        0 <= x < wu,
        0 <= y < hv,
    ensures
        quad_contains(q, wu, hv, cell(wu, x, y)) <==> (q.0 <= x < q.0 + q.2 && q.1 <= y < q.1 + q.3),
{
    lemma_cell(wu, hv, x, y);
}

/// How far a quad starting at set cell `n` (column `i` of row `j`) stretches along its row:
/// over the set cells that follow it, up to the end of the row.
fn quad_width(mask: &Vec<bool>, n: usize, i: usize, j: usize, wu: usize, hv: usize) -> (w: usize)
    requires
        wu > 0,
        i < wu,
        j < hv,
        wu * hv <= usize::MAX,
        mask@.len() == wu * hv,
        n == cell(wu as int, i as int, j as int),
        mask@[n as int],
    ensures
        1 <= w,
        i + w <= wu,
        forall|x: int| i <= x < i + w ==> #[trigger] mask@[cell(wu as int, x, j as int)],
        i + w < wu ==> !mask@[cell(wu as int, i + w, j as int)],
{
    proof {
        lemma_cell(wu as int, hv as int, i as int, j as int);
        if i + 1 < wu {
            lemma_cell(wu as int, hv as int, i + 1, j as int);
        }
    }
    let mut w: usize = 1;
    while i + w < wu && mask[n + w]
        invariant
            wu > 0,
            i < wu,
            j < hv,
            wu * hv <= usize::MAX,
            mask@.len() == wu * hv,
            n == cell(wu as int, i as int, j as int),
            1 <= w,
            i + w <= wu,
            forall|x: int| i <= x < i + w ==> #[trigger] mask@[cell(wu as int, x, j as int)],
            i + w < wu ==> n + w == cell(wu as int, i + w, j as int) && n + w < wu * hv,
        decreases wu - w,
    {
        w = w + 1;
        proof {
            if i + w < wu {
                lemma_cell(wu as int, hv as int, i + w, j as int);
            }
        }
    }
    proof {
        if i + w < wu {
            lemma_cell(wu as int, hv as int, i + w, j as int);
        }
    }
    w
}

/// Whether the cells of row `y` from column `i` for `w` columns are all set.
fn row_set(mask: &Vec<bool>, i: usize, y: usize, w: usize, wu: usize, hv: usize) -> (r: bool)
    requires
        wu > 0,
        i + w <= wu,
        y < hv,
        wu * hv <= usize::MAX,
        mask@.len() == wu * hv,
    ensures
        r == forall|x: int| i <= x < i + w ==> #[trigger] mask@[cell(wu as int, x, y as int)],
{
    proof {
        lemma_cell(wu as int, hv as int, 0, y as int);
    }
    let base = y * wu;
    let mut x: usize = 0;
    while x < w
        invariant
            wu > 0,
            i + w <= wu,
            y < hv,
            wu * hv <= usize::MAX,
            mask@.len() == wu * hv,
            base == cell(wu as int, 0, y as int),
            x <= w,
            forall|x2: int| i <= x2 < i + x ==> #[trigger] mask@[cell(wu as int, x2, y as int)],
        decreases w - x,
    {
        proof {
            lemma_cell(wu as int, hv as int, i + x, y as int);
        }
        if !mask[base + i + x] {
            return false;
        }
        x = x + 1;
    }
    true
}

/// How far a quad stretches across the rows below its first row: over the rows whose cells
/// under its whole width are set.
fn quad_height(mask: &Vec<bool>, i: usize, j: usize, w: usize, wu: usize, hv: usize) -> (h: usize)
    requires
        wu > 0,
        i + w <= wu,
        j < hv,
        wu * hv <= usize::MAX,
        mask@.len() == wu * hv,
    ensures
        1 <= h,
        j + h <= hv,
        forall|x: int, y: int|
            i <= x < i + w && j + 1 <= y < j + h ==> #[trigger] mask@[cell(wu as int, x, y)],
        j + h < hv ==> exists|x: int|
            i <= x < i + w && !#[trigger] mask@[cell(wu as int, x, (j + h) as int)],
{
    let mut h: usize = 1;
    let mut done = false;
    while !done && j + h < hv
        invariant
            wu > 0,
            i + w <= wu,
            j < hv,
            wu * hv <= usize::MAX,
            mask@.len() == wu * hv,
            1 <= h,
            j + h <= hv,
            forall|x: int, y: int|
                i <= x < i + w && j + 1 <= y < j + h ==> #[trigger] mask@[cell(wu as int, x, y)],
            done ==> j + h < hv && exists|x: int|
                i <= x < i + w && !#[trigger] mask@[cell(wu as int, x, (j + h) as int)],
        decreases hv - h, if done { 0int } else { 1int },
    {
        if row_set(mask, i, j + h, w, wu, hv) {
            h = h + 1;
        } else {
            done = true;
        }
    }
    h
}

/// Clears the cells of the quad.
fn clear_quad(mask: &mut Vec<bool>, q: Quad, wu: usize, hv: usize)
    requires
        wu > 0,
        q.0 + q.2 <= wu,
        q.1 + q.3 <= hv,
        wu * hv <= usize::MAX,
        old(mask)@.len() == wu * hv,
    ensures
        final(mask)@.len() == wu * hv,
        forall|c: int|
            0 <= c < wu * hv ==> #[trigger] final(mask)@[c] == (!quad_contains(q, wu as int, hv as int, c)
                && old(mask)@[c]),
{
    let ghost before = mask@;
    let (i, j, w, h) = q;
    let mut l: usize = 0;
    while l < h
        invariant
            wu > 0,
            q == (i, j, w, h),
            i + w <= wu,
            j + h <= hv,
            wu * hv <= usize::MAX,
            l <= h,
            mask@.len() == wu * hv,
            before.len() == wu * hv,
            forall|c: int|
                0 <= c < wu * hv ==> #[trigger] mask@[c] == (!quad_contains((i, j, w, l), wu as int, hv as int, c)
                    && before[c]),
        decreases h - l,
    {
        proof {
            lemma_cell(wu as int, hv as int, 0, (j + l) as int);
        }
        let base = (j + l) * wu;
        let mut x: usize = 0;
        while x < w
            invariant
                wu > 0,
                i + w <= wu,
                j + h <= hv,
                l < h,
                wu * hv <= usize::MAX,
                base == cell(wu as int, 0, (j + l) as int),
                x <= w,
                mask@.len() == wu * hv,
                before.len() == wu * hv,
                forall|c: int|
                    0 <= c < wu * hv ==> #[trigger] mask@[c] == (!(quad_contains((i, j, w, l), wu as int, hv as int, c)
                        || quad_contains((i, (j + l) as usize, x, 1), wu as int, hv as int, c)) && before[c]),
            decreases w - x,
        {
            let ghost prev = mask@;
            proof {
                lemma_cell(wu as int, hv as int, (i + x) as int, (j + l) as int);
            }
            mask.set(base + i + x, false);
            proof {
                let c0 = cell(wu as int, (i + x) as int, (j + l) as int);
                assert forall|c: int| 0 <= c < wu * hv implies #[trigger] mask@[c] == (!(quad_contains(
                    (i, j, w, l),
                    wu as int,
                    hv as int,
                    c,
                ) || quad_contains((i, (j + l) as usize, (x + 1) as usize, 1), wu as int, hv as int, c)) && before[c]) by {
                    lemma_cell_of(wu as int, hv as int, c);
                    if c != c0 {
                        assert(mask@[c] == prev[c]);
                        assert(!(c % (wu as int) == i + x && c / (wu as int) == j + l));
                    }
                }
            }
            x = x + 1;
        }
        proof {
            assert forall|c: int| 0 <= c < wu * hv implies #[trigger] mask@[c] == (!quad_contains(
                (i, j, w, (l + 1) as usize),
                wu as int,
                hv as int,
                c,
            ) && before[c]) by {
            }
        }
        l = l + 1;
    }
}

/// The mesher's progress over a mask: which quad holds each cell (-1 for none), the quads so
/// far, and the cell reached.
spec fn greedy_progress(
    mask0: Seq<bool>,
    mask: Seq<bool>,
    owner: Seq<int>,
    quads: Seq<Quad>,
    wu: int,
    hv: int,
    n: int,
) -> bool {
    &&& mask.len() == wu * hv
    &&& mask0.len() == wu * hv
    &&& owner.len() == wu * hv
    &&& forall|c: int| 0 <= c < wu * hv ==> #[trigger] mask[c] == (mask0[c] && owner[c] == -1)
    &&& forall|c: int| 0 <= c < wu * hv ==> #[trigger] owner[c] == -1 || 0 <= owner[c] < quads.len()
    &&& forall|c: int, k: int|
        0 <= c < wu * hv && 0 <= k < quads.len() ==> (#[trigger] quad_contains(quads[k], wu, hv, c)
            <==> owner[c] == k)
    &&& forall|k: int| 0 <= k < quads.len() ==> quad_valid(#[trigger] quads[k], wu, hv, mask0)
    &&& forall|k1: int, k2: int|
        0 <= k1 < k2 < quads.len() ==> quad_start(#[trigger] quads[k1], wu) < quad_start(
            #[trigger] quads[k2],
            wu,
        )
    &&& forall|k: int| 0 <= k < quads.len() ==> quad_start(#[trigger] quads[k], wu) < n
    &&& forall|k: int| 0 <= k < quads.len() ==> quad_start(#[trigger] quads[k], wu) < wu * hv
    &&& n <= wu * hv
    &&& forall|c: int| 0 <= c < n ==> !mask0[c] || #[trigger] owner[c] != -1
    &&& forall|k: int, c: int|
        #![trigger quad_start(quads[k], wu), owner[c]]
        0 <= k < quads.len() && 0 <= c < quad_start(quads[k], wu) && mask0[c] ==> 0 <= owner[c] < k
    &&& forall|k: int|
        0 <= k < quads.len() && (#[trigger] quads[k]).0 + quads[k].2 < wu ==> {
            let c = cell(wu, quads[k].0 + quads[k].2, quads[k].1 as int);
            !mask0[c] || 0 <= owner[c] < k
        }
    &&& forall|k: int|
        0 <= k < quads.len() && (#[trigger] quads[k]).1 + quads[k].3 < hv ==> exists|x: int|
            quads[k].0 <= x < quads[k].0 + quads[k].2 && {
                let c = #[trigger] cell(wu, x, quads[k].1 + quads[k].3);
                !mask0[c] || 0 <= owner[c] < k
            }
}

/// Splits the set cells of a mask `wu` cells wide and `hv` rows high into quads, greedily
/// (see [greedy_mesh]), clearing the mask on the way.
pub fn greedy_quads(mask: &mut Vec<bool>, wu: usize, hv: usize) -> (quads: Vec<Quad>)
    requires
        wu > 0,
        hv > 0,
        wu * hv + wu <= usize::MAX,
        old(mask)@.len() == wu * hv,
    ensures
        greedy_mesh(old(mask)@, wu as int, hv as int, quads@),
        final(mask)@ == Seq::new((wu * hv) as nat, |_c: int| false),
{
    let ghost mask0 = mask@;
    let ghost mut owner: Seq<int> = Seq::new((wu * hv) as nat, |_c: int| -1int);
    let mut quads: Vec<Quad> = Vec::new();
    let mut n: usize = 0;
    let mut j: usize = 0;
    while j < hv
        invariant
            wu > 0,
            hv > 0,
            wu * hv + wu <= usize::MAX,
            j <= hv,
            n == j * wu,
            greedy_progress(mask0, mask@, owner, quads@, wu as int, hv as int, n as int),
        decreases hv - j,
    {
        proof {
            lemma_cell(wu as int, hv as int, 0, j as int);
        }
        let mut i: usize = 0;
        while i < wu
            invariant
                wu > 0,
                hv > 0,
                wu * hv + wu <= usize::MAX,
                j < hv,
                i <= wu,
                n == cell(wu as int, i as int, j as int),
                greedy_progress(mask0, mask@, owner, quads@, wu as int, hv as int, n as int),
            decreases wu - i,
        {
            proof {
                lemma_cell(wu as int, hv as int, i as int, j as int);
            }
            if mask[n] {
                let w = quad_width(mask, n, i, j, wu, hv);
                let h = quad_height(mask, i, j, w, wu, hv);
                let q: Quad = (i, j, w, h);
                let ghost k = quads@.len() as int;
                let ghost owner_before = owner;
                let ghost mask_before = mask@;
                let ghost quads_before = quads@;
                proof {
                    // every cell of the quad is set and free
                    assert forall|c: int| #[trigger] quad_contains(q, wu as int, hv as int, c) implies mask_before[c] by {
                        lemma_cell_of(wu as int, hv as int, c);
                        let x = c % (wu as int);
                        let y = c / (wu as int);
                        if y == j {
                            assert(mask_before[cell(wu as int, x, j as int)]);
                        } else {
                            assert(mask_before[cell(wu as int, x, y)]);
                        }
                    }
                    owner = Seq::new(
                        (wu * hv) as nat,
                        |c: int| if quad_contains(q, wu as int, hv as int, c) { k } else { owner_before[c] },
                    );
                }
                quads.push(q);
                clear_quad(mask, q, wu, hv);
                proof {
                    lemma_quad_cell(q, wu as int, hv as int, i as int, j as int);
                    lemma_greedy_step(mask0, mask_before, mask@, owner_before, owner, quads_before, quads@, q, wu as int, hv as int, n as int);
                }
                i = i + w;
                n = n + w;
            } else {
                i = i + 1;
                n = n + 1;
            }
        }
        proof {
            assert(n == (j + 1) * wu) by (nonlinear_arith)
                requires
                    n == j * wu + wu,
            ;
        }
        j = j + 1;
    }
    proof {
        assert(n == wu * hv) by (nonlinear_arith)
            requires
                n == j * wu,
                j == hv,
        ;
    }
    proof {
        lemma_greedy_done(mask0, mask@, owner, quads@, wu as int, hv as int);
    }
    quads
}

/// Adding a quad that starts at cell `n`, whose cells are set and free and which stretches as
/// far as the mesher stretches it, keeps the mesher's progress, up to the cell after the quad's
/// first row.
proof fn lemma_greedy_step(
    mask0: Seq<bool>,
    mask_before: Seq<bool>,
    mask_after: Seq<bool>,
    owner_before: Seq<int>,
    owner_after: Seq<int>,
    quads_before: Seq<Quad>,
    quads_after: Seq<Quad>,
    q: Quad,
    wu: int,
    hv: int,
    n: int,
)
    requires
        wu > 0,
        greedy_progress(mask0, mask_before, owner_before, quads_before, wu, hv, n),
        quads_after == quads_before.push(q),
        owner_after == Seq::new(
            (wu * hv) as nat,
            |c: int| if quad_contains(q, wu, hv, c) { quads_before.len() as int } else { owner_before[c] },
        ),
        mask_after.len() == wu * hv,
        forall|c: int|
            0 <= c < wu * hv ==> #[trigger] mask_after[c] == (!quad_contains(q, wu, hv, c) && mask_before[c]),
        q.1 < hv,
        n == cell(wu, q.0 as int, q.1 as int),
        q.2 >= 1,
        q.3 >= 1,
        q.0 + q.2 <= wu,
        q.1 + q.3 <= hv,
        forall|c: int| #[trigger] quad_contains(q, wu, hv, c) ==> mask_before[c],
        q.0 + q.2 < wu ==> !mask_before[cell(wu, q.0 + q.2, q.1 as int)],
        q.1 + q.3 < hv ==> exists|x: int|
            q.0 <= x < q.0 + q.2 && !#[trigger] mask_before[cell(wu, x, q.1 + q.3)],
    ensures
        greedy_progress(mask0, mask_after, owner_after, quads_after, wu, hv, n + q.2),
{
    let k = quads_before.len() as int;
    let (i, j, w, h) = q;
    assert(quads_after[k] == q);
    assert forall|k2: int| 0 <= k2 < k implies #[trigger] quads_after[k2] == quads_before[k2] by {}
    // the cells of the new quad were free, so it holds none of the earlier quads' cells
    assert forall|c: int| #[trigger] quad_contains(q, wu, hv, c) implies owner_before[c] == -1 by {
        assert(mask_before[c]);
    }
    assert forall|c: int| 0 <= c < wu * hv implies #[trigger] mask_after[c] == (mask0[c] && owner_after[c] == -1) by {}
    assert forall|c: int| 0 <= c < wu * hv implies #[trigger] owner_after[c] == -1 || 0 <= owner_after[c] < quads_after.len() by {}
    assert forall|c: int, k2: int|
        0 <= c < wu * hv && 0 <= k2 < quads_after.len() implies (#[trigger] quad_contains(quads_after[k2], wu, hv, c)
            <==> owner_after[c] == k2) by {
        if k2 < k {
            assert(quads_after[k2] == quads_before[k2]);
            if quad_contains(q, wu, hv, c) {
                assert(owner_before[c] == -1);
            }
        }
    }
    assert(quad_valid(q, wu, hv, mask0)) by {
        assert forall|c: int| #[trigger] quad_contains(q, wu, hv, c) implies mask0[c] by {
            assert(mask_before[c]);
        }
    }
    assert forall|k2: int| 0 <= k2 < quads_after.len() implies quad_valid(#[trigger] quads_after[k2], wu, hv, mask0) by {
        if k2 < k {
            assert(quads_after[k2] == quads_before[k2]);
        }
    }
    assert(quad_start(q, wu) == n);
    assert forall|k1: int, k2: int|
        0 <= k1 < k2 < quads_after.len() implies quad_start(#[trigger] quads_after[k1], wu) < quad_start(
            #[trigger] quads_after[k2],
            wu,
        ) by {
        assert(quads_after[k1] == quads_before[k1]);
        if k2 < k {
            assert(quads_after[k2] == quads_before[k2]);
        }
    }
    assert forall|k2: int| 0 <= k2 < quads_after.len() implies quad_start(#[trigger] quads_after[k2], wu) < n + w by {
        if k2 < k {
            assert(quads_after[k2] == quads_before[k2]);
        }
    }
    lemma_cell(wu, hv, i as int, j as int);
    lemma_cell(wu, hv, i + w - 1, j as int);
    assert(n + w <= wu * hv);
    assert forall|k2: int| 0 <= k2 < quads_after.len() implies quad_start(#[trigger] quads_after[k2], wu) < wu * hv by {
        if k2 < k {
            assert(quads_after[k2] == quads_before[k2]);
        }
    }
    assert forall|c: int| 0 <= c < n + w implies !mask0[c] || #[trigger] owner_after[c] != -1 by {
        if c >= n {
            lemma_quad_cell(q, wu, hv, i + (c - n), j as int);
            lemma_cell(wu, hv, i + (c - n), j as int);
        } else if mask0[c] {
            assert(owner_before[c] != -1);
        }
    }
    assert forall|k2: int, c: int|
        #![trigger quad_start(quads_after[k2], wu), owner_after[c]]
        0 <= k2 < quads_after.len() && 0 <= c < quad_start(quads_after[k2], wu) && mask0[c] implies 0
            <= owner_after[c] < k2 by {
        if k2 < k {
            assert(quads_after[k2] == quads_before[k2]);
            assert(0 <= owner_before[c] < k2);
        } else {
            assert(c < n);
            assert(owner_before[c] != -1);
        }
        assert(c < wu * hv);
        if quad_contains(q, wu, hv, c) {
            assert(owner_before[c] == -1);
        }
        assert(owner_after[c] == owner_before[c]);
    }
    assert forall|k2: int|
        0 <= k2 < quads_after.len() && (#[trigger] quads_after[k2]).0 + quads_after[k2].2 < wu implies {
            let c = cell(wu, quads_after[k2].0 + quads_after[k2].2, quads_after[k2].1 as int);
            !mask0[c] || 0 <= owner_after[c] < k2
        } by {
        if k2 < k {
            let q2 = quads_before[k2];
            assert(quads_after[k2] == q2);
            assert(quad_valid(q2, wu, hv, mask0));
            let c = cell(wu, q2.0 + q2.2, q2.1 as int);
            lemma_cell(wu, hv, q2.0 + q2.2, q2.1 as int);
            if mask0[c] {
                assert(0 <= owner_before[c] < k2);
                if quad_contains(q, wu, hv, c) {
                    assert(owner_before[c] == -1);
                }
                assert(owner_after[c] == owner_before[c]);
            }
        } else {
            let c = cell(wu, i + w, j as int);
            lemma_cell(wu, hv, i + w, j as int);
            assert(!mask_before[c]);
            if mask0[c] {
                assert(owner_before[c] != -1);
                if quad_contains(q, wu, hv, c) {
                    assert(mask_before[c]);
                }
                assert(owner_after[c] == owner_before[c]);
            }
        }
    }
    assert forall|k2: int|
        0 <= k2 < quads_after.len() && (#[trigger] quads_after[k2]).1 + quads_after[k2].3 < hv implies exists|x: int|
            quads_after[k2].0 <= x < quads_after[k2].0 + quads_after[k2].2 && {
                let c = #[trigger] cell(wu, x, quads_after[k2].1 + quads_after[k2].3);
                !mask0[c] || 0 <= owner_after[c] < k2
            } by {
        if k2 < k {
            assert(quads_after[k2] == quads_before[k2]);
            let x = choose|x: int|
                quads_before[k2].0 <= x < quads_before[k2].0 + quads_before[k2].2 && {
                    let c = #[trigger] cell(wu, x, quads_before[k2].1 + quads_before[k2].3);
                    !mask0[c] || 0 <= owner_before[c] < k2
                };
            let c = cell(wu, x, quads_before[k2].1 + quads_before[k2].3);
            assert(quad_valid(quads_before[k2], wu, hv, mask0));
            lemma_cell(wu, hv, x, quads_before[k2].1 + quads_before[k2].3);
            if mask0[c] {
                if quad_contains(q, wu, hv, c) {
                    assert(owner_before[c] == -1);
                }
                assert(owner_after[c] == owner_before[c]);
            }
            assert(!mask0[c] || 0 <= owner_after[c] < k2);
        } else {
            let x = choose|x: int| i <= x < i + w && !#[trigger] mask_before[cell(wu, x, j + h)];
            let c = cell(wu, x, j + h);
            lemma_cell(wu, hv, x, j + h);
            assert(!mask_before[c]);
            if mask0[c] {
                assert(owner_before[c] != -1);
                if quad_contains(q, wu, hv, c) {
                    assert(mask_before[c]);
                }
                assert(owner_after[c] == owner_before[c]);
            }
            assert(!mask0[c] || 0 <= owner_after[c] < k2);
        }
    }
}

/// Once the mesher has passed every cell, its quads are the greedy mesh of the mask, and the
/// mask is clear.
proof fn lemma_greedy_done(mask0: Seq<bool>, mask: Seq<bool>, owner: Seq<int>, quads: Seq<Quad>, wu: int, hv: int)
    requires
        wu > 0,
        greedy_progress(mask0, mask, owner, quads, wu, hv, wu * hv),
    ensures
        greedy_mesh(mask0, wu, hv, quads),
        mask == Seq::new((wu * hv) as nat, |_c: int| false),
{
    assert forall|c: int| 0 <= c < wu * hv && mask0[c] implies exists|k: int|
        0 <= k < quads.len() && #[trigger] quad_contains(quads[k], wu, hv, c) by {
        assert(owner[c] != -1);
        assert(quad_contains(quads[owner[c]], wu, hv, c));
    }
    assert forall|k: int, c: int|
        #![trigger quad_start(quads[k], wu), mask0[c]]
        0 <= k < quads.len() && 0 <= c < quad_start(quads[k], wu) && mask0[c] implies covered_before(
            quads,
            k,
            wu,
            hv,
            c,
        ) by {
        assert(quad_start(quads[k], wu) < wu * hv);
        assert(0 <= owner[c] < k);
        assert(quad_contains(quads[owner[c]], wu, hv, c));
    }
    assert forall|k: int|
        0 <= k < quads.len() && (#[trigger] quads[k]).0 + quads[k].2 < wu implies blocked(
            mask0,
            quads,
            k,
            wu,
            hv,
            quads[k].0 + quads[k].2,
            quads[k].1 as int,
        ) by {
        let c = cell(wu, quads[k].0 + quads[k].2, quads[k].1 as int);
        assert(quad_valid(quads[k], wu, hv, mask0));
        lemma_cell(wu, hv, quads[k].0 + quads[k].2, quads[k].1 as int);
        if mask0[c] {
            assert(0 <= owner[c] < k);
            assert(quad_contains(quads[owner[c]], wu, hv, c));
        }
    }
    assert forall|k: int|
        0 <= k < quads.len() && (#[trigger] quads[k]).1 + quads[k].3 < hv implies exists|x: int|
            quads[k].0 <= x < quads[k].0 + quads[k].2 && #[trigger] blocked(
                mask0,
                quads,
                k,
                wu,
                hv,
                x,
                quads[k].1 + quads[k].3,
            ) by {
        let x = choose|x: int|
            quads[k].0 <= x < quads[k].0 + quads[k].2 && {
                let c = #[trigger] cell(wu, x, quads[k].1 + quads[k].3);
                !mask0[c] || 0 <= owner[c] < k
            };
        let c = cell(wu, x, quads[k].1 + quads[k].3);
        assert(quad_valid(quads[k], wu, hv, mask0));
        lemma_cell(wu, hv, x, quads[k].1 + quads[k].3);
        if mask0[c] {
            assert(quad_contains(quads[owner[c]], wu, hv, c));
        }
        assert(blocked(mask0, quads, k, wu, hv, x, quads[k].1 + quads[k].3));
    }
    assert(mask =~= Seq::new((wu * hv) as nat, |_c: int| false)) by {
        assert forall|c: int| 0 <= c < wu * hv implies mask[c] == false by {
            if mask0[c] {
                assert(owner[c] != -1);
            }
        }
    }
}

/// The number of blocks of a slab along x, y and z.
pub open spec fn slab_dim(d: int) -> int {
    if d == 2 {
        32
    } else {
        16
    }
}

/// The width of the masks of axis `d`: the extent of the axis after it.
pub open spec fn mask_width(d: int) -> int {
    slab_dim((d + 1) % 3)
}

/// The height of the masks of axis `d`: the extent of the axis two after it.
pub open spec fn mask_height(d: int) -> int {
    slab_dim((d + 2) % 3)
}

/// The block at `a` along axis `d`, `b` along the axis after it and `c` along the one after
/// that, as (x, y, z).
pub open spec fn axis_pos(d: int, a: int, b: int, c: int) -> (int, int, int) {
    if d == 0 {
        (a, b, c)
    } else if d == 1 {
        (c, a, b)
    } else {
        (b, c, a)
    }
}

/// The block is inside the slab and solid; the blocks of the slab are given slice by slice
/// from the bottom, each slice in row-major order.
pub open spec fn solid_at(solid: Seq<bool>, p: (int, int, int)) -> bool {
    &&& 0 <= p.0 < 16
    &&& 0 <= p.1 < 16
    &&& 0 <= p.2 < 32
    &&& solid[p.2 * 256 + p.1 * 16 + p.0]
}

/// The faces between layer `l - 1` and layer `l` of blocks along axis `d`: a cell for each
/// pair of blocks facing each other across the boundary, set where exactly one of the two is
/// solid.
pub open spec fn layer_mask(solid: Seq<bool>, d: int, l: int) -> Seq<bool> {
    let wu = mask_width(d);
    Seq::new(
        (wu * mask_height(d)) as nat,
        |n: int|
            solid_at(solid, axis_pos(d, l - 1, n % wu, n / wu)) != solid_at(
                solid,
                axis_pos(d, l, n % wu, n / wu),
            ),
    )
}

/// The four corners of a quad of the faces at layer `l` of axis `d`, as x, y, z each: its
/// first corner, then round it.
pub open spec fn quad_vertices(d: int, l: int, q: Quad) -> Seq<i32> {
    let p0 = axis_pos(d, l, q.0 as int, q.1 as int);
    let p1 = axis_pos(d, l, q.0 + q.2, q.1 as int);
    let p2 = axis_pos(d, l, q.0 + q.2, q.1 + q.3);
    let p3 = axis_pos(d, l, q.0 as int, q.1 + q.3);
    seq![
        p0.0 as i32, p0.1 as i32, p0.2 as i32,
        p1.0 as i32, p1.1 as i32, p1.2 as i32,
        p2.0 as i32, p2.1 as i32, p2.2 as i32,
        p3.0 as i32, p3.1 as i32, p3.2 as i32,
    ]
}

/// The two triangles of a quad whose first corner is vertex `base`.
pub open spec fn quad_indices(base: int) -> Seq<u32> {
    seq![
        base as u32, (base + 1) as u32, (base + 2) as u32,
        (base + 2) as u32, (base + 3) as u32, base as u32,
    ]
}

/// The corners of the quads of a layer, in order.
pub open spec fn layer_vertices(d: int, l: int, quads: Seq<Quad>) -> Seq<i32>
    decreases quads.len(),
{
    if quads.len() == 0 {
        Seq::empty()
    } else {
        layer_vertices(d, l, quads.drop_last()) + quad_vertices(d, l, quads.last())
    }
}

/// The triangles of the quads of a layer, in order, the first quad's first corner being
/// vertex `base`.
pub open spec fn layer_indices(quads: Seq<Quad>, base: int) -> Seq<u32>
    decreases quads.len(),
{
    if quads.len() == 0 {
        Seq::empty()
    } else {
        layer_indices(quads.drop_last(), base) + quad_indices(base + 4 * (quads.len() - 1))
    }
}

/// The axis of layer `li` of the mesh: the layers of x first, then those of y, then those of
/// z.
pub open spec fn layer_axis(li: int) -> int {
    if li < 17 {
        0
    } else if li < 34 {
        1
    } else {
        2
    }
}

/// The position of layer `li` of the mesh along its axis.
pub open spec fn layer_index(li: int) -> int {
    if li < 17 {
        li
    } else if li < 34 {
        li - 17
    } else {
        li - 34
    }
}

/// The number of quads of the layers.
pub open spec fn quad_count(layers: Seq<Seq<Quad>>) -> int
    decreases layers.len(),
{
    if layers.len() == 0 {
        0
    } else {
        quad_count(layers.drop_last()) + layers.last().len()
    }
}

/// The corners of the quads of the mesh's first layers, layer by layer.
pub open spec fn mesh_vertices(layers: Seq<Seq<Quad>>) -> Seq<i32>
    decreases layers.len(),
{
    if layers.len() == 0 {
        Seq::empty()
    } else {
        let li = layers.len() - 1;
        mesh_vertices(layers.drop_last()) + layer_vertices(layer_axis(li), layer_index(li), layers.last())
    }
}

/// The triangles of the quads of the mesh's first layers, layer by layer, the first quad's
/// first corner being vertex `base`.
pub open spec fn mesh_indices(layers: Seq<Seq<Quad>>, base: int) -> Seq<u32>
    decreases layers.len(),
{
    if layers.len() == 0 {
        Seq::empty()
    } else {
        mesh_indices(layers.drop_last(), base) + layer_indices(
            layers.last(),
            base + 4 * quad_count(layers.drop_last()),
        )
    }
}

/// The layers are the greedy meshes of the faces of the slab's layers, in mesh order.
pub open spec fn mesh_layers(solid: Seq<bool>, layers: Seq<Seq<Quad>>) -> bool {
    forall|li: int|
        0 <= li < layers.len() ==> greedy_mesh(
            layer_mask(solid, layer_axis(li), layer_index(li)),
            mask_width(layer_axis(li)),
            mask_height(layer_axis(li)),
            #[trigger] layers[li],
        )
}

/// The faces between one layer of blocks along axis `d` and the next (layer `l`, from 0 below
/// the slab to the slab's extent above it).
fn compute_layer_mask(solid: &[bool], d: usize, l: usize) -> (mask: Vec<bool>)
    requires
        solid@.len() == 8192,
        d < 3,
        l <= slab_dim(d as int),
    ensures
        mask@ == layer_mask(solid@, d as int, l as int),
{
    let wu: usize = if d == 1 {
        32
    } else {
        16
    };
    let hv: usize = if d == 0 {
        32
    } else {
        16
    };
    let nd: usize = if d == 2 {
        32
    } else {
        16
    };
    let mut mask: Vec<bool> = Vec::new();
    let mut xv: usize = 0;
    while xv < hv
        invariant
            solid@.len() == 8192,
            d < 3,
            l <= nd,
            nd == slab_dim(d as int),
            wu == mask_width(d as int),
            hv == mask_height(d as int),
            xv <= hv,
            mask@.len() == xv * wu,
            forall|n: int| 0 <= n < mask@.len() ==> #[trigger] mask@[n] == layer_mask(solid@, d as int, l as int)[n],
        decreases hv - xv,
    {
        let mut xu: usize = 0;
        while xu < wu
            invariant
                solid@.len() == 8192,
                d < 3,
                l <= nd,
                nd == slab_dim(d as int),
                wu == mask_width(d as int),
                hv == mask_height(d as int),
                xv < hv,
                xu <= wu,
                mask@.len() == xv * wu + xu,
                forall|n: int| 0 <= n < mask@.len() ==> #[trigger] mask@[n] == layer_mask(solid@, d as int, l as int)[n],
            decreases wu - xu,
        {
            let solid_this = if l >= 1 {
                solid_block(solid, d, l - 1, xu, xv)
            } else {
                false
            };
            let solid_other = if l < nd {
                solid_block(solid, d, l, xu, xv)
            } else {
                false
            };
            let ghost n = mask@.len() as int;
            proof {
                lemma_cell(wu as int, hv as int, xu as int, xv as int);
                assert(n == cell(wu as int, xu as int, xv as int));
                assert(0 <= n < wu * hv);
                assert(n % (wu as int) == xu && n / (wu as int) == xv);
                if l == 0 {
                    assert(!solid_at(solid@, axis_pos(d as int, -1, xu as int, xv as int)));
                }
                if l == nd {
                    assert(!solid_at(solid@, axis_pos(d as int, nd as int, xu as int, xv as int)));
                }
            }
            mask.push(solid_this != solid_other);
            xu = xu + 1;
        }
        proof {
            assert(mask@.len() == (xv + 1) * wu) by (nonlinear_arith)
                requires
                    mask@.len() == xv * wu + wu,
            ;
        }
        xv = xv + 1;
    }
    proof {
        assert(mask@.len() == wu * hv) by (nonlinear_arith)
            requires
                mask@.len() == xv * wu,
                xv == hv,
        ;
        assert(mask@ =~= layer_mask(solid@, d as int, l as int));
    }
    mask
}

/// Whether the block at `a` along axis `d`, `b` along the next axis and `c` along the one
/// after is solid.
fn solid_block(solid: &[bool], d: usize, a: usize, b: usize, c: usize) -> (r: bool)
    requires
        solid@.len() == 8192,
        d < 3,
        a < slab_dim(d as int),
        b < mask_width(d as int),
        c < mask_height(d as int),
    ensures
        r == solid_at(solid@, axis_pos(d as int, a as int, b as int, c as int)),
{
    let (x, y, z) = if d == 0 {
        (a, b, c)
    } else if d == 1 {
        (c, a, b)
    } else {
        (b, c, a)
    };
    solid[z * 256 + y * 16 + x]
}

/// The block at `a` along axis `d`, `b` along the next axis and `c` along the one after, as
/// (x, y, z).
fn axis_position(d: usize, a: i32, b: i32, c: i32) -> (r: (i32, i32, i32))
    ensures
        r.0 == axis_pos(d as int, a as int, b as int, c as int).0,
        r.1 == axis_pos(d as int, a as int, b as int, c as int).1,
        r.2 == axis_pos(d as int, a as int, b as int, c as int).2,
{
    if d == 0 {
        (a, b, c)
    } else if d == 1 {
        (c, a, b)
    } else {
        (b, c, a)
    }
}

/// Adding twelve coordinates to the vertices adds four to the vertex count.
proof fn lemma_vertex_base(a: int, k: int)
    requires
        a >= 0,
        k >= 0,
    ensures
        (a + 12 * k) / 3 == a / 3 + 4 * k,
{
    assert((a + 12 * k) / 3 == a / 3 + 4 * k) by (nonlinear_arith)
        requires
            a >= 0,
            k >= 0,
    ;
}

/// Appends the corners of a quad of the faces at layer `l` of axis `d`, and its triangles,
/// its first corner being vertex `vs`.
fn push_quad(q: Quad, d: usize, l: usize, vs: u32, out_vertices: &mut Vec<i32>, out_indices: &mut Vec<u32>)
    requires
        d < 3,
        l <= 32,
        q.0 + q.2 <= 32,
        q.1 + q.3 <= 32,
        vs + 3 <= u32::MAX,
    ensures
        final(out_vertices)@ == old(out_vertices)@ + quad_vertices(d as int, l as int, q),
        final(out_indices)@ == old(out_indices)@ + quad_indices(vs as int),
{
    let (i, j, w, h) = q;
    let p0 = axis_position(d, l as i32, i as i32, j as i32);
    let p1 = axis_position(d, l as i32, (i + w) as i32, j as i32);
    let p2 = axis_position(d, l as i32, (i + w) as i32, (j + h) as i32);
    let p3 = axis_position(d, l as i32, i as i32, (j + h) as i32);
    out_vertices.push(p0.0);
    out_vertices.push(p0.1);
    out_vertices.push(p0.2);
    out_vertices.push(p1.0);
    out_vertices.push(p1.1);
    out_vertices.push(p1.2);
    out_vertices.push(p2.0);
    out_vertices.push(p2.1);
    out_vertices.push(p2.2);
    out_vertices.push(p3.0);
    out_vertices.push(p3.1);
    out_vertices.push(p3.2);
    out_indices.push(vs);
    out_indices.push(vs + 1);
    out_indices.push(vs + 2);
    out_indices.push(vs + 2);
    out_indices.push(vs + 3);
    out_indices.push(vs);
    proof {
        assert(final(out_vertices)@ =~= old(out_vertices)@ + quad_vertices(d as int, l as int, q));
        assert(final(out_indices)@ =~= old(out_indices)@ + quad_indices(vs as int));
    }
}

/// The corners of the quads of a layer are twelve coordinates per quad.
proof fn lemma_layer_vertices_len(d: int, l: int, quads: Seq<Quad>)
    ensures
        layer_vertices(d, l, quads).len() == 12 * quads.len(),
    decreases quads.len(),
{
    if quads.len() > 0 {
        lemma_layer_vertices_len(d, l, quads.drop_last());
    }
}

/// Appends the corners and the triangles of the quads of the faces at layer `l` of axis `d`.
fn emit_quads(
    quads: &Vec<Quad>,
    d: usize,
    l: usize,
    out_vertices: &mut Vec<i32>,
    out_indices: &mut Vec<u32>,
)
    requires
        d < 3,
        l <= 32,
        forall|k: int|
            0 <= k < quads@.len() ==> (#[trigger] quads@[k]).0 + quads@[k].2 <= 32 && quads@[k].1
                + quads@[k].3 <= 32,
        old(out_vertices)@.len() + 12 * quads@.len() <= u32::MAX,
    ensures
        final(out_vertices)@ == old(out_vertices)@ + layer_vertices(d as int, l as int, quads@),
        final(out_indices)@ == old(out_indices)@ + layer_indices(quads@, old(out_vertices)@.len() as int / 3),
{
    let ghost vertices0 = out_vertices@;
    let ghost indices0 = out_indices@;
    let ghost base: int = vertices0.len() as int / 3;
    let mut k: usize = 0;
    while k < quads.len()
        invariant
            d < 3,
            l <= 32,
            k <= quads@.len(),
            forall|k2: int|
                0 <= k2 < quads@.len() ==> (#[trigger] quads@[k2]).0 + quads@[k2].2 <= 32
                    && quads@[k2].1 + quads@[k2].3 <= 32,
            vertices0.len() + 12 * quads@.len() <= u32::MAX,
            base == vertices0.len() / 3,
            out_vertices@ == vertices0 + layer_vertices(d as int, l as int, quads@.take(k as int)),
            out_indices@ == indices0 + layer_indices(quads@.take(k as int), base),
            out_vertices@.len() == vertices0.len() + 12 * k,
        decreases quads@.len() - k,
    {
        let q = quads[k];
        let ghost vertices_before = out_vertices@;
        let ghost indices_before = out_indices@;
        let idx = out_vertices.len();
        proof {
            lemma_vertex_base(vertices0.len() as int, k as int);
        }
        let vs = (idx as u32) / 3;
        push_quad(q, d, l, vs, out_vertices, out_indices);
        proof {
            let taken = quads@.take(k + 1);
            assert(taken.drop_last() =~= quads@.take(k as int));
            assert(taken.last() == q);
            assert(out_vertices@ =~= vertices0 + layer_vertices(d as int, l as int, taken));
            assert(vs == base + 4 * k);
            assert(out_indices@ =~= indices0 + layer_indices(taken, base));
        }
        k = k + 1;
    }
    proof {
        assert(quads@.take(quads@.len() as int) =~= quads@);
    }
}

/// A strictly increasing sequence of starts below `bound` holds no more than `bound` quads.
proof fn lemma_quad_count_bound(quads: Seq<Quad>, wu: int, hv: int, mask: Seq<bool>)
    requires
        wu > 0,
        hv > 0,
        greedy_mesh(mask, wu, hv, quads),
    ensures
        quads.len() <= wu * hv,
{
    if quads.len() > 0 {
        let last = quads.len() - 1;
        assert forall|k: int| 0 <= k < quads.len() implies quad_start(#[trigger] quads[k], wu) >= k by {
            lemma_start_at_least(quads, wu, hv, mask, k);
        }
        let q = quads[last];
        assert(quad_valid(q, wu, hv, mask));
        lemma_cell(wu, hv, q.0 as int, q.1 as int);
        assert(quad_start(q, wu) >= last);
    }
}

/// The start of quad `k` is at least `k`.
proof fn lemma_start_at_least(quads: Seq<Quad>, wu: int, hv: int, mask: Seq<bool>, k: int)
    requires
        greedy_mesh(mask, wu, hv, quads),
        0 <= k < quads.len(),
    ensures
        quad_start(quads[k], wu) >= k,
    decreases k,
{
    if k > 0 {
        lemma_start_at_least(quads, wu, hv, mask, k - 1);
        assert(quad_start(quads[k - 1], wu) < quad_start(quads[k], wu));
    }
}

/// A quad of the mask starts in its last row and reaches its last column.
pub open spec fn reaches_end(quads: Seq<Quad>, wu: int, hv: int) -> bool {
    exists|k: int| 0 <= k < quads.len() && (#[trigger] quads[k]).1 == hv - 1 && quads[k].0 + quads[k].2 == wu
}

/// Meshing layer `li` as the greedy scan over a mask of exactly its cells reads the cell after
/// the mask: a layer along x or y (whose masks fill the whole scratch mask) has a quad that
/// starts in the mask's last row and reaches its last column, so the scan for the quad's width
/// goes on past the end.
pub open spec fn layer_overruns(li: int, quads: Seq<Quad>) -> bool {
    &&& layer_axis(li) < 2
    &&& reaches_end(quads, mask_width(layer_axis(li)), mask_height(layer_axis(li)))
}

/// Some layer of the mesh overruns its mask (see [layer_overruns]).
pub open spec fn mesh_overruns(layers: Seq<Seq<Quad>>) -> bool {
    exists|li: int| 0 <= li < layers.len() && #[trigger] layer_overruns(li, layers[li])
}

/// No greedy meshing of the slab overruns its mask.
pub open spec fn mesh_in_bounds(solid: Seq<bool>) -> bool {
    forall|layers: Seq<Seq<Quad>>|
        layers.len() == 67 && #[trigger] mesh_layers(solid, layers) ==> !mesh_overruns(layers)
}

fn layer_reaches_end(quads: &Vec<Quad>, wu: usize, hv: usize) -> (r: bool)
    requires
        hv > 0,
    ensures
        r == reaches_end(quads@, wu as int, hv as int),
{
    let mut i: usize = 0;
    while i < quads.len()
        invariant
            hv > 0,
            i <= quads@.len(),
            forall|k: int| 0 <= k < i ==> !((#[trigger] quads@[k]).1 == hv - 1 && quads@[k].0 + quads@[k].2 == wu),
        decreases quads@.len() - i,
    {
        let q = quads[i];
        if q.1 == hv - 1 && q.0 as u128 + q.2 as u128 == wu as u128 {
            return true;
        }
        i = i + 1;
    }
    false
}

/// The collision mesh of a slab: for each axis in turn (x, y, z) and each boundary between
/// layers of blocks along it (from below the slab to above it), the faces between a solid
/// block and a block that is not (outside the slab nothing is solid), split into quads by the
/// greedy mesher (see [greedy_mesh]); each quad appended as its four corners and the two
/// triangles over them, indexing the vertices counted in `out_vertices` (three coordinates
/// each).
/// The meshing is the greedy one of https://0fps.net/2012/06/30/meshing-in-a-minecraft-game/
///
/// Returns whether the greedy scan stays within its mask (see [mesh_in_bounds]); the mesh is
/// made either way.
pub fn collision_mesh_checked(solid: &[bool], out_vertices: &mut Vec<i32>, out_indices: &mut Vec<u32>) -> (r: bool)
    requires
        solid@.len() == 8192,
        old(out_vertices)@.len() + 12 * 512 * 67 <= u32::MAX,
    ensures
        exists|layers: Seq<Seq<Quad>>|
            {
                &&& layers.len() == 67
                &&& mesh_layers(solid@, layers)
                &&& final(out_vertices)@ == old(out_vertices)@ + mesh_vertices(layers)
                &&& final(out_indices)@ == old(out_indices)@ + mesh_indices(
                    layers,
                    old(out_vertices)@.len() as int / 3,
                )
                &&& r == !mesh_overruns(layers)
            },
{
    let mut fits = true;
    let ghost vertices0 = out_vertices@;
    let ghost indices0 = out_indices@;
    let ghost base: int = vertices0.len() as int / 3;
    let ghost mut layers: Seq<Seq<Quad>> = Seq::empty();
    let mut d: usize = 0;
    while d < 3
        invariant
            solid@.len() == 8192,
            vertices0.len() + 12 * 512 * 67 <= u32::MAX,
            base == vertices0.len() / 3,
            d <= 3,
            layers.len() == (if d == 0 {
                0int
            } else if d == 1 {
                17int
            } else if d == 2 {
                34int
            } else {
                67int
            }),
            mesh_layers(solid@, layers),
            quad_count(layers) <= 512 * layers.len(),
            out_vertices@ == vertices0 + mesh_vertices(layers),
            out_vertices@.len() == vertices0.len() + 12 * quad_count(layers),
            out_indices@ == indices0 + mesh_indices(layers, base),
            fits == !mesh_overruns(layers),
        decreases 3 - d,
    {
        let nd: usize = if d == 2 {
            32
        } else {
            16
        };
        let wu: usize = if d == 1 {
            32
        } else {
            16
        };
        let hv: usize = if d == 0 {
            32
        } else {
            16
        };
        let ghost first = layers.len() as int;
        let mut l: usize = 0;
        while l <= nd
            invariant
                solid@.len() == 8192,
                vertices0.len() + 12 * 512 * 67 <= u32::MAX,
                base == vertices0.len() / 3,
                d < 3,
                nd == slab_dim(d as int),
                wu == mask_width(d as int),
                hv == mask_height(d as int),
                l <= nd + 1,
                first == (if d == 0 {
                    0int
                } else if d == 1 {
                    17int
                } else {
                    34int
                }),
                layers.len() == first + l,
                mesh_layers(solid@, layers),
                quad_count(layers) <= 512 * layers.len(),
                out_vertices@ == vertices0 + mesh_vertices(layers),
                out_vertices@.len() == vertices0.len() + 12 * quad_count(layers),
                out_indices@ == indices0 + mesh_indices(layers, base),
                fits == !mesh_overruns(layers),
            decreases nd + 1 - l,
        {
            let mut mask = compute_layer_mask(solid, d, l);
            let ghost mask0 = mask@;
            let quads = greedy_quads(&mut mask, wu, hv);
            let ghost li = layers.len() as int;
            proof {
                assert(layer_axis(li) == d);
                assert(layer_index(li) == l);
                lemma_quad_count_bound(quads@, wu as int, hv as int, mask0);
                assert forall|k: int| 0 <= k < quads@.len() implies (#[trigger] quads@[k]).0 + quads@[k].2
                    <= 32 && quads@[k].1 + quads@[k].3 <= 32 by {
                    assert(quad_valid(quads@[k], wu as int, hv as int, mask0));
                }
            }
            let over = d < 2 && layer_reaches_end(&quads, wu, hv);
            if over {
                fits = false;
            }
            emit_quads(&quads, d, l, out_vertices, out_indices);
            proof {
                lemma_layer_vertices_len(d as int, l as int, quads@);
                let old_layers = layers;
                layers = layers.push(quads@);
                assert(layers.drop_last() =~= old_layers);
                assert(quad_count(layers) == quad_count(old_layers) + quads@.len());
                assert(layers.last() == quads@);
                assert forall|li2: int| 0 <= li2 < layers.len() implies greedy_mesh(
                    layer_mask(solid@, layer_axis(li2), layer_index(li2)),
                    mask_width(layer_axis(li2)),
                    mask_height(layer_axis(li2)),
                    #[trigger] layers[li2],
                ) by {
                    if li2 < old_layers.len() {
                        assert(layers[li2] == old_layers[li2]);
                    }
                }
                assert(out_indices@ =~= indices0 + mesh_indices(layers, base));
                assert(over == layer_overruns(li, layers[li]));
                if mesh_overruns(old_layers) {
                    let w = choose|w: int| 0 <= w < old_layers.len() && #[trigger] layer_overruns(w, old_layers[w]);
                    assert(layers[w] == old_layers[w]);
                }
                if mesh_overruns(layers) {
                    let w = choose|w: int| 0 <= w < layers.len() && #[trigger] layer_overruns(w, layers[w]);
                    if w < old_layers.len() {
                        assert(layers[w] == old_layers[w]);
                    }
                }
            }
            l = l + 1;
        }
        d = d + 1;
    }
    fits
}


/// The collision mesh of a slab: for each axis in turn (x, y, z) and each boundary between
/// layers of blocks along it (from below the slab to above it), the faces between a solid
/// block and a block that is not (outside the slab nothing is solid), split into quads by the
/// greedy mesher (see [greedy_mesh]); each quad appended as its four corners and the two
/// triangles over them, indexing the vertices counted in `out_vertices` (three coordinates
/// each).
/// The meshing is the greedy one of https://0fps.net/2012/06/30/meshing-in-a-minecraft-game/
///
/// Where the greedy scan would read past its mask (see [mesh_in_bounds]) the slab is left out.
pub fn make_collision_mesh(solid: &[bool], out_vertices: &mut Vec<i32>, out_indices: &mut Vec<u32>)
    requires
        solid@.len() == 8192,
        old(out_vertices)@.len() + 12 * 512 * 67 <= u32::MAX,
        mesh_in_bounds(solid@),
    ensures
        exists|layers: Seq<Seq<Quad>>|
            {
                &&& layers.len() == 67
                &&& mesh_layers(solid@, layers)
                &&& final(out_vertices)@ == old(out_vertices)@ + mesh_vertices(layers)
                &&& final(out_indices)@ == old(out_indices)@ + mesh_indices(
                    layers,
                    old(out_vertices)@.len() as int / 3,
                )
            },
{
    collision_mesh_checked(solid, out_vertices, out_indices);
}

} // verus!
