use vstd::prelude::*;

use crate::coordinate::dim::CHUNK_SIZE_I32;
use crate::grid::CoordType;

verus! {

/// The horizontal neighbours of a block that lie inside its chunk, in a fixed order.
pub struct Neighbours {
    block: CoordType,
    idx: usize,
}

/// The number of horizontal neighbours of a block.
pub const HORIZONTAL_NEIGHBOUR_COUNT: usize = 4;

/// The step to the `i`th horizontal neighbour.
pub open spec fn horizontal_offset(i: int) -> (int, int) {
    if i == 0 {
        (-1, 0)
    } else if i == 1 {
        (0, -1)
    } else if i == 2 {
        (0, 1)
    } else {
        (1, 0)
    }
}

/// The `i`th horizontal neighbour of the block, if it lies inside the chunk.
pub open spec fn neighbour_candidate(block: CoordType, i: int) -> Option<CoordType> {
    let (dx, dy) = horizontal_offset(i);
    let nx = block[0] + dx;
    let ny = block[1] + dy;
    if 0 <= nx < CHUNK_SIZE_I32 && 0 <= ny < CHUNK_SIZE_I32 {
        Some([nx as i32, ny as i32, block[2]])
    } else {
        None
    }
}

/// Stepping to a neighbour of the block overflows nothing.
pub open spec fn block_steppable(block: CoordType) -> bool {
    &&& i32::MIN < block[0] < i32::MAX
    &&& i32::MIN < block[1] < i32::MAX
}

/// One call of [Neighbours::next], from view `before` to view `after`, returning `r`: the
/// block stays; `Some` is the first candidate inside the chunk from the next index on, the
/// index moving past it; `None` when no candidate is left, the index moving to the end.
pub open spec fn neighbours_step(before: (CoordType, usize), r: Option<CoordType>, after: (CoordType, usize)) -> bool {
    &&& after.0 == before.0
    &&& match r {
        Some(n) => before.1 < after.1 <= HORIZONTAL_NEIGHBOUR_COUNT && neighbour_candidate(
            before.0,
            after.1 - 1,
        ) == Some(n) && forall|i: int|
            before.1 <= i < after.1 - 1 ==> neighbour_candidate(before.0, i) is None,
        None => after.1 == (if before.1 < HORIZONTAL_NEIGHBOUR_COUNT {
            HORIZONTAL_NEIGHBOUR_COUNT
        } else {
            before.1
        }) && forall|i: int|
            before.1 <= i < HORIZONTAL_NEIGHBOUR_COUNT ==> neighbour_candidate(before.0, i) is None,
    }
}

/// The neighbours inside the chunk of the block, in order, from candidate `from` on.
pub open spec fn neighbour_list(block: CoordType, from: int) -> Seq<CoordType>
    decreases HORIZONTAL_NEIGHBOUR_COUNT - from,
{
    if from >= HORIZONTAL_NEIGHBOUR_COUNT {
        Seq::empty()
    } else {
        match neighbour_candidate(block, from) {
            Some(n) => seq![n] + neighbour_list(block, from + 1),
            None => neighbour_list(block, from + 1),
        }
    }
}

/// The candidates from `from` to before `to` are all outside the chunk, so the list is the
/// same from either.
proof fn lemma_list_skips(block: CoordType, from: int, to: int)
    requires
        from <= to,
        forall|i: int| from <= i < to ==> neighbour_candidate(block, i) is None,
    ensures
        neighbour_list(block, from) == neighbour_list(block, to),
    decreases to - from,
{
    if from < to {
        lemma_list_skips(block, from + 1, to);
    }
}

/// Run to the end, the iterator yields exactly the block's neighbours inside the chunk, in
/// order: each call's result is the head of what is left to yield, and once it has returned
/// `None` nothing is left, so it returns `None` again.
pub proof fn lemma_neighbours_run(before: (CoordType, usize), r: Option<CoordType>, after: (CoordType, usize))
    requires
        neighbours_step(before, r, after),
    ensures
        after.0 == before.0,
        match r {
            Some(n) => neighbour_list(before.0, before.1 as int) == seq![n] + neighbour_list(after.0, after.1 as int),
            None => {
                &&& neighbour_list(before.0, before.1 as int) == Seq::<CoordType>::empty()
                &&& after.1 >= HORIZONTAL_NEIGHBOUR_COUNT
                &&& forall|r2: Option<CoordType>, after2: (CoordType, usize)|
                    neighbours_step(after, r2, after2) ==> r2 is None
            },
        },
{
    match r {
        Some(n) => {
            lemma_list_skips(before.0, before.1 as int, after.1 - 1);
        },
        None => {
            if before.1 < HORIZONTAL_NEIGHBOUR_COUNT {
                lemma_list_skips(before.0, before.1 as int, HORIZONTAL_NEIGHBOUR_COUNT as int);
            }
        },
    }
}

impl View for Neighbours {
    /// The block, and the index of the next neighbour to try.
    type V = (CoordType, usize);

    closed spec fn view(&self) -> (CoordType, usize) {
        (self.block, self.idx)
    }
}

impl Neighbours {
    pub fn new(block: CoordType) -> (r: Self)
        ensures
            r@ == (block, 0usize),
    {
        Self { block, idx: 0 }
    }

    fn offset(i: usize) -> (r: (i32, i32))
        requires
            i < HORIZONTAL_NEIGHBOUR_COUNT,
        ensures
            (r.0 as int, r.1 as int) == horizontal_offset(i as int),
    {
        if i == 0 {
            (-1, 0)
        } else if i == 1 {
            (0, -1)
        } else if i == 2 {
            (0, 1)
        } else {
            (1, 0)
        }
    }

    /// The next neighbour inside the chunk, if any is left.
    pub fn next(&mut self) -> (r: Option<CoordType>)
        requires
            block_steppable(old(self)@.0),
        ensures
            neighbours_step(old(self)@, r, final(self)@),
    {
        let x = self.block[0];
        let y = self.block[1];
        let z = self.block[2];
        let mut i = self.idx;
        while i < HORIZONTAL_NEIGHBOUR_COUNT
            invariant
                old(self)@.1 <= i,
                self.block == old(self)@.0,
                x == self.block[0] && y == self.block[1] && z == self.block[2],
                block_steppable(self.block),
                self.idx == i,
                old(self)@.1 < HORIZONTAL_NEIGHBOUR_COUNT ==> i <= HORIZONTAL_NEIGHBOUR_COUNT,
                old(self)@.1 >= HORIZONTAL_NEIGHBOUR_COUNT ==> i == old(self)@.1,
                forall|j: int| old(self)@.1 <= j < i ==> neighbour_candidate(self.block, j) is None,
            decreases HORIZONTAL_NEIGHBOUR_COUNT - i,
        {
            self.idx = i + 1;
            let (dx, dy) = Self::offset(i);
            let nx = x + dx;
            let ny = y + dy;
            if nx < 0 || nx >= CHUNK_SIZE_I32 {
                i = i + 1;
                continue ;
            }
            if ny < 0 || ny >= CHUNK_SIZE_I32 {
                i = i + 1;
                continue ;
            }
            let n: CoordType = [nx, ny, z];
            proof {
                assert(neighbour_candidate(self.block, i as int) == Some(n));
            }
            return Some(n);
        }
        None
    }
}

} // verus!
