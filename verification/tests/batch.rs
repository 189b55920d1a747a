use world::loader::batch::{UpdateBatch, UpdateBatchUniqueId, UpdateBatcher};

#[test]
fn batch_creation() {
    let mut ids = UpdateBatchUniqueId::default();
    let mut batches = UpdateBatch::builder(&mut ids, 3);

    let b1 = batches.next_batch();
    let b2 = batches.next_batch();
    let b3 = batches.next_batch();

    assert_eq!(b1.my_idx(), 1);
    assert_eq!(b2.my_idx(), 2);
    assert_eq!(b3.my_idx(), 3);

    assert!(!b1.is_last());
    assert!(!b2.is_last());
    assert!(b3.is_last());

    assert!(batches.is_complete().is_ok());
}

#[test]
fn single_item() {
    let mut ids = UpdateBatchUniqueId::default();
    let mut batches = UpdateBatch::builder(&mut ids, 1);

    let b1 = batches.next_batch();
    assert!(b1.is_last());
}

#[test]
fn batcher() {
    let mut ids = UpdateBatchUniqueId::default();
    let mut batches_a = UpdateBatch::builder(&mut ids, 3); // "hey whats up"
    let mut batches_b = UpdateBatch::builder(&mut ids, 2); // "very cool"
    let mut batches_c = UpdateBatch::builder(&mut ids, 1); // "nice"

    let mut batcher = UpdateBatcher::default();

    batcher.submit(batches_a.next_batch(), "hey");
    batcher.submit(batches_a.next_batch(), "whats");

    // batches are out of order, oh no
    batcher.submit(batches_b.next_batch(), "very");

    // and another
    batcher.submit(batches_c.next_batch(), "nice");

    // only the last batch is complete
    let complete = batcher.complete_batches();
    assert_eq!(complete.to_vec(), vec![(batches_c.batch_id(), 1)]);
    assert_eq!(batcher.pop_batch(batches_c.batch_id()).1, vec!["nice"]);

    // finish off first batch
    batcher.submit(batches_a.next_batch(), "up");
    let complete = batcher.complete_batches();
    assert_eq!(complete.to_vec(), vec![(batches_a.batch_id(), 3)]);
    assert_eq!(
        batcher.pop_batch(batches_a.batch_id()).1,
        vec!["hey", "whats", "up"]
    );

    // and finish off last batch
    batcher.submit(batches_b.next_batch(), "cool");
    let complete = batcher.complete_batches();
    assert_eq!(complete.to_vec(), vec![(batches_b.batch_id(), 2)]);
    assert_eq!(
        batcher.pop_batch(batches_b.batch_id()).1,
        vec!["very", "cool"]
    );

    let complete = batcher.complete_batches();
    assert!(complete.is_empty());
}

#[test]
fn batcher_out_of_order() {
    let mut ids = UpdateBatchUniqueId::default();
    let mut batches = UpdateBatch::builder(&mut ids, 2);

    let mut batcher = UpdateBatcher::default();

    let b1 = batches.next_batch();
    let b2 = batches.next_batch();
    batcher.submit(b2, "two");

    // not done yet
    assert!(batcher.complete_batches().is_empty());

    batcher.submit(b1, "one");

    let complete = batcher.complete_batches().to_vec();
    assert_eq!(complete.len(), 1);

    let (batch_id, batch_len) = *complete.first().unwrap();
    assert_eq!(batch_len, 2);

    let (_, items) = batcher.pop_batch(batch_id);
    assert_eq!(items.len(), 2);
}

#[test]
fn batch_ids_count_up() {
    let mut ids = UpdateBatchUniqueId::default();
    let a = UpdateBatch::builder(&mut ids, 1);
    let b = UpdateBatch::builder(&mut ids, 5);
    assert_eq!(a.batch_id(), 0);
    assert_eq!(b.batch_id(), 1);
    assert_eq!(b.is_complete(), Err((1, 5)));
    let first = { let mut b = b; b.next_batch() };
    assert_eq!(first.batch_size(), 5);
    assert_eq!(first.batch_id(), 1);
}
