use vstd::prelude::*;

use std::collections::HashMap;

verus! {

pub type BatchId = u16;

pub type BatchSize = u16;

/// One item's place in a batch of updates: the batch, how many items it has, and which of
/// them (counting from 1) this one is.
#[derive(Copy, Clone, Debug)]
pub struct UpdateBatch {
    batch_id: BatchId,
    batch_size: BatchSize,
    my_idx: BatchSize,
}

impl View for UpdateBatch {
    /// The batch's id, its size, and this item's index in it.
    type V = (BatchId, BatchSize, BatchSize);

    closed spec fn view(&self) -> (BatchId, BatchSize, BatchSize) {
        (self.batch_id, self.batch_size, self.my_idx)
    }
}

/// Hands out the places of the items of one batch, in order.
pub struct UpdateBatchBuilder {
    next: UpdateBatch,
}

impl View for UpdateBatchBuilder {
    /// The place the next item will get.
    type V = (BatchId, BatchSize, BatchSize);

    closed spec fn view(&self) -> (BatchId, BatchSize, BatchSize) {
        self.next@
    }
}

/// The source of batch ids.
pub struct UpdateBatchUniqueId(BatchId);

impl View for UpdateBatchUniqueId {
    /// The id the next batch will get.
    type V = BatchId;

    closed spec fn view(&self) -> BatchId {
        self.0
    }
}

impl Default for UpdateBatchUniqueId {
    fn default() -> (r: Self)
        ensures
            r@ == 0,
    {
        UpdateBatchUniqueId(0)
    }
}

impl UpdateBatch {
    /// Starts a batch of the given size with the next id, which moves on by one (wrapping).
    /// Panics if batch size == 0 or >= <typeof(batch_size)>::MAX
    pub fn builder(batch_id: &mut UpdateBatchUniqueId, batch_size: usize) -> (r:
        UpdateBatchBuilder)
        requires
            0 < batch_size < u16::MAX,
        ensures
            r@ == (old(batch_id)@, batch_size as u16, 1u16),
            final(batch_id)@ == old(batch_id)@.wrapping_add(1),
    {
        let current = batch_id.0;
        batch_id.0 = current.wrapping_add(1);
        let size = batch_size as u16;
        UpdateBatchBuilder { next: UpdateBatch { batch_id: current, batch_size: size, my_idx: 1 } }
    }

    /// This is the batch's last item.
    pub fn is_last(&self) -> (r: bool)
        ensures
            r == (self@.2 == self@.1),
    {
        self.my_idx == self.batch_size
    }

    pub fn batch_id(&self) -> (r: BatchId)
        ensures
            r == self@.0,
    {
        self.batch_id
    }

    pub fn batch_size(&self) -> (r: BatchSize)
        ensures
            r == self@.1,
    {
        self.batch_size
    }

    pub fn my_idx(&self) -> (r: BatchSize)
        ensures
            r == self@.2,
    {
        self.my_idx
    }
}

impl UpdateBatchBuilder {
    /// The place of the next item of the batch.
    pub fn next_batch(&mut self) -> (r: UpdateBatch)
        requires
            old(self)@.2 <= old(self)@.1,
            old(self)@.2 < u16::MAX,
        ensures
            r@ == old(self)@,
            final(self)@ == (old(self)@.0, old(self)@.1, (old(self)@.2 + 1) as u16),
    {
        let batch = self.next;
        self.next.my_idx = self.next.my_idx + 1;
        batch
    }

    /// Every item of the batch has been given its place; otherwise the next index and the
    /// batch size.
    pub fn is_complete(&self) -> (r: Result<(), (usize, usize)>)
        requires
            self@.1 < u16::MAX,
        ensures
            r == (if self@.2 == self@.1 + 1 {
                Ok(())
            } else {
                Err((self@.2 as usize, self@.1 as usize))
            }),
    {
        if self.next.my_idx == self.next.batch_size + 1 {
            Ok(())
        } else {
            Err((self.next.my_idx as usize, self.next.batch_size as usize))
        }
    }

    pub fn batch_id(&self) -> (r: BatchId)
        ensures
            r == self@.0,
    {
        self.next.batch_id
    }
}

/// Gathers the items of batches, which may arrive out of order and interleaved with other
/// batches, until a batch is complete.
pub struct UpdateBatcher<U> {
    batches: HashMap<BatchId, (UpdateBatch, Vec<U>)>,
}

/// A batch is complete when it holds as many items as its size.
pub open spec fn batch_complete<U>(entry: ((BatchId, BatchSize, BatchSize), Seq<U>)) -> bool {
    entry.1.len() == entry.0.1 as nat
}

impl<U> Default for UpdateBatcher<U> {
    fn default() -> (r: Self)
        ensures
            r.wf(),
            r.view() == Map::<BatchId, ((BatchId, BatchSize, BatchSize), Seq<U>)>::empty(),
    {
        Self::new()
    }
}

impl<U> UpdateBatcher<U> {
    /// For each batch id seen, the place of its last item to arrive and its items in arrival
    /// order.
    pub closed spec fn view(&self) -> Map<BatchId, ((BatchId, BatchSize, BatchSize), Seq<U>)> {
        self.batches@.map_values(|v: (UpdateBatch, Vec<U>)| (v.0@, v.1@))
    }

    /// Every batch is held under its own id.
    pub closed spec fn wf(&self) -> bool {
        forall|id: BatchId| #[trigger] self.batches@.contains_key(id) ==> self.batches@[id].0@.0 == id
    }

    pub fn new() -> (r: Self)
        ensures
            r.wf(),
            r.view() == Map::<BatchId, ((BatchId, BatchSize, BatchSize), Seq<U>)>::empty(),
    {
        let r = UpdateBatcher { batches: HashMap::with_capacity(8) };
        assert(r.view() =~= Map::<BatchId, ((BatchId, BatchSize, BatchSize), Seq<U>)>::empty());
        r
    }

    /// Adds an item of a batch.
    pub fn submit(&mut self, batch: UpdateBatch, item: U)
        requires
            old(self).wf(),
        ensures
            final(self).wf(),
            final(self).view() == old(self).view().insert(
                batch@.0,
                (
                    batch@,
                    if old(self).view().contains_key(batch@.0) {
                        old(self).view()[batch@.0].1
                    } else {
                        Seq::empty()
                    }.push(item),
                ),
            ),
    {
        let id = batch.batch_id;
        let entry = self.batches.remove(&id);
        let mut items = match entry {
            Some((_last_seen, items)) => items,
            None => Vec::with_capacity(batch.batch_size as usize),
        };
        items.push(item);
        self.batches.insert(id, (batch, items));
        proof {
            let expected = old(self).view().insert(
                batch@.0,
                (
                    batch@,
                    if old(self).view().contains_key(batch@.0) {
                        old(self).view()[batch@.0].1
                    } else {
                        Seq::empty()
                    }.push(item),
                ),
            );
            assert(self.view() =~= expected);
        }
    }

    /// (batch id, batch length) of every complete batch.
    pub fn complete_batches(&self) -> (r: Vec<(BatchId, usize)>)
        requires
            self.wf(),
        ensures
            r@.no_duplicates(),
            forall|p: (BatchId, usize)|
                r@.contains(p) <==> self.view().contains_key(p.0) && batch_complete(
                    self.view()[p.0],
                ) && self.view()[p.0].1.len() == p.1,
    {
        let mut out: Vec<(BatchId, usize)> = Vec::new();
        let ghost m = self.batches@;
        let ghost v = self.view();
        let ghost mut visited: Set<BatchId> = Set::empty();
        for pair in it: self.batches.iter()
            invariant
                m == self.batches@,
                v == self.view(),
                self.wf(),
                it.seq().no_duplicates(),
                it.seq().len() == m.dom().len(),
                forall|i: int|
                    0 <= i < it.seq().len() ==> #[trigger] m.contains_key(*it.seq()[i].0) && m[*it.seq()[i].0]
                        == *it.seq()[i].1,
                visited.finite(),
                visited.len() == it.index(),
                visited.subset_of(m.dom()),
                forall|k: BatchId|
                    #[trigger] visited.contains(k) <==> exists|i: int|
                        0 <= i < it.index() && *it.seq()[i].0 == k,
                out@.no_duplicates(),
                forall|p: (BatchId, usize)|
                    #[trigger] out@.contains(p) <==> visited.contains(p.0) && batch_complete(v[p.0])
                        && v[p.0].1.len() == p.1,
        {
            let ghost i0 = it.index() as int;
            let ghost s = it.seq();
            let ghost old_out = out@;
            let ghost old_visited = visited;
            assert(pair == s[i0]);
            let (_id, (batch, items)) = pair;
            let ghost k0 = batch.batch_id;
            proof {
                assert(m.contains_key(*s[i0].0));
                assert(batch@.0 == *s[i0].0);
                assert(v[k0] == (batch@, items@));
                if old_visited.contains(k0) {
                    let j = choose|j: int| 0 <= j < i0 && *s[j].0 == k0;
                    assert(*s[j].1 == *s[i0].1);
                    assert(s[j] == s[i0]);
                }
                visited = old_visited.insert(k0);
                assert forall|k: BatchId| #[trigger] visited.contains(k) <==> exists|i: int|
                    0 <= i < i0 + 1 && *s[i].0 == k by {
                    if k == k0 {
                        assert(*s[i0].0 == k);
                    }
                    if (exists|i: int| 0 <= i < i0 + 1 && *s[i].0 == k) && k != k0 {
                        let i = choose|i: int| 0 <= i < i0 + 1 && *s[i].0 == k;
                        assert(i < i0);
                    }
                }
            }
            if batch.batch_size as usize == items.len() {
                proof {
                    assert forall|p: (BatchId, usize)| old_out.contains(p) implies p.0 != k0 by {}
                }
                out.push((batch.batch_id, items.len()));
                proof {
                    let x = (k0, items@.len() as usize);
                    assert(!old_out.contains(x));
                    assert(out@ == old_out.push(x));
                    assert forall|a: int, b: int| 0 <= a < b < out@.len() implies out@[a] != out@[b] by {
                        if b == out@.len() - 1 {
                            assert(old_out[a] == out@[a]);
                        } else {
                            assert(old_out[a] == out@[a] && old_out[b] == out@[b]);
                        }
                    }
                    assert forall|p: (BatchId, usize)| #[trigger] out@.contains(p) <==> visited.contains(p.0)
                        && batch_complete(v[p.0]) && v[p.0].1.len() == p.1 by {
                        if p.0 != k0 {
                            if out@.contains(p) {
                                let j = choose|j: int| 0 <= j < out@.len() && out@[j] == p;
                                assert(j < old_out.len());
                                assert(old_out.contains(p));
                            }
                            if old_out.contains(p) {
                                let j = choose|j: int| 0 <= j < old_out.len() && old_out[j] == p;
                                assert(out@[j] == p);
                            }
                        } else if out@.contains(p) {
                            let j = choose|j: int| 0 <= j < out@.len() && out@[j] == p;
                            if j < old_out.len() {
                                assert(old_out.contains(p));
                            }
                        } else {
                            assert(out@[out@.len() - 1] == (k0, items@.len() as usize));
                        }
                    }
                }
            }
        }
        proof {
            vstd::set_lib::lemma_subset_equality(visited, m.dom());
            assert(visited == m.dom());
        }
        out
    }

    /// Takes out a batch and its items.
    pub fn pop_batch(&mut self, batch: BatchId) -> (r: (UpdateBatch, Vec<U>))
        requires
            old(self).wf(),
            old(self).view().contains_key(batch),
        ensures
            final(self).wf(),
            (r.0@, r.1@) == old(self).view()[batch],
            final(self).view() == old(self).view().remove(batch),
    {
        let entry = self.batches.remove(&batch);
        proof {
            assert(self.view() =~= old(self).view().remove(batch));
        }
        entry.unwrap()
    }
}

} // verus!
