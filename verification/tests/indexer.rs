use foyer_block::indexer::{EntryAddress, HashedEntryAddress, Index, Indexer};
use foyer_block::serde::Sequence;

fn addr(sequence: Sequence) -> EntryAddress {
    EntryAddress { block: 1, offset: 0, len: 64, sequence }
}

fn hadrr(hash: u64, sequence: Sequence) -> HashedEntryAddress {
    HashedEntryAddress { hash, address: addr(sequence) }
}

#[test]
fn stale_reinsertion_after_tombstone_persist_is_rejected() {
    let mut indexer = Indexer::new(4);
    let hash = 42u64;

    // Live entry @ S10.
    indexer.insert_batch(vec![hadrr(hash, 10)]);
    assert_eq!(indexer.get(hash), Some(addr(10)));

    // Delete @ S20.
    indexer.insert_tombstone(hash, 20);
    assert_eq!(indexer.get(hash), None);

    // Flusher persists the tombstone and removes it; the watermark must persist.
    indexer.remove_batch(vec![(hash, 20)]);
    assert_eq!(indexer.get(hash), None);

    // Stale reinsertion @ S10 arrives after the tombstone was persisted.
    indexer.insert_batch(vec![hadrr(hash, 10)]);
    assert!(
        indexer.get(hash).is_none(),
        "deleted entry must not reappear, but got {:?}",
        indexer.get(hash)
    );
}

#[test]
fn newer_insert_supersedes_retained_tombstone() {
    let mut indexer = Indexer::new(4);
    let hash = 42u64;
    indexer.insert_batch(vec![hadrr(hash, 10)]);
    indexer.insert_tombstone(hash, 20);
    indexer.remove_batch(vec![(hash, 20)]);
    // Re-write at S30 (> S20) replaces the retained tombstone with a live address.
    // A superseding insert produces no "old" evicted address (the displaced
    // value was a tombstone, which carries no address).
    assert!(indexer.insert_batch(vec![hadrr(hash, 30)]).is_empty());
    assert_eq!(indexer.get(hash), Some(addr(30)));
}

#[test]
fn remove_batch_still_evicts_live_addresses() {
    let mut indexer = Indexer::new(4);
    let hash = 42u64;
    indexer.insert_batch(vec![hadrr(hash, 10)]);
    let olds = indexer.remove_batch(vec![(hash, 10)]);
    assert_eq!(olds, vec![addr(10)]);
    assert_eq!(indexer.get(hash), None);
}

#[test]
fn every_shard_count_answers_alike() {
    for shards in [1usize, 2, 7, 64] {
        let mut indexer = Indexer::new(shards);
        let batch: Vec<HashedEntryAddress> = (0..100u64).map(|h| hadrr(h, h + 1)).collect();
        assert!(indexer.insert_batch(batch).is_empty());
        for h in 0..100u64 {
            assert_eq!(indexer.get(h), Some(addr(h + 1)));
        }
        assert_eq!(indexer.get(100), None);
        let mut olds = indexer.insert_batch((0..50u64).map(|h| hadrr(h, 200)).collect());
        olds.sort_by_key(|o| o.hash);
        let sequences: Vec<(u64, Sequence)> =
            olds.iter().map(|o| (o.hash, o.address.sequence)).collect();
        let expected: Vec<(u64, Sequence)> = (0..50u64).map(|h| (h, h + 1)).collect();
        assert_eq!(sequences, expected);
    }
}

#[test]
fn stale_insertion_is_returned_as_no_longer_in_use() {
    let mut indexer = Indexer::new(4);
    indexer.insert_batch(vec![hadrr(7, 10)]);
    let olds = indexer.insert_batch(vec![hadrr(7, 5)]);
    assert_eq!(olds.len(), 1);
    assert_eq!(olds[0].address, addr(5));
    assert_eq!(indexer.get(7), Some(addr(10)));
}

#[test]
fn equal_sequence_takes_the_new_address() {
    let mut indexer = Indexer::new(4);
    indexer.insert_batch(vec![hadrr(7, 10)]);
    let moved = EntryAddress { block: 9, offset: 4096, len: 64, sequence: 10 };
    let olds = indexer.insert_batch(vec![HashedEntryAddress { hash: 7, address: moved }]);
    assert_eq!(olds[0].address, addr(10));
    assert_eq!(indexer.get(7), Some(moved));
}

#[test]
fn removal_spares_newer_entries_and_tombstones() {
    let mut indexer = Indexer::new(4);
    indexer.insert_batch(vec![hadrr(1, 10), hadrr(2, 10)]);
    assert!(indexer.remove_batch(vec![(1, 9)]).is_empty());
    assert_eq!(indexer.get(1), Some(addr(10)));
    assert_eq!(indexer.insert_tombstone(2, 20), Some(addr(10)));
    assert_eq!(indexer.remove(2), None);
    assert_eq!(indexer.remove(1), Some(addr(10)));
    assert_eq!(indexer.remove(1), None);
    // The tombstone is still there: an older write is refused.
    indexer.insert_batch(vec![hadrr(2, 15)]);
    assert_eq!(indexer.get(2), None);
    indexer.clear();
    indexer.insert_batch(vec![hadrr(2, 15)]);
    assert_eq!(indexer.get(2), Some(addr(15)));
}

#[test]
fn late_tombstone_returns_nothing() {
    let mut indexer = Indexer::new(4);
    indexer.insert_batch(vec![hadrr(1, 10)]);
    assert_eq!(indexer.insert_tombstone(1, 5), None);
    assert_eq!(indexer.get(1), Some(addr(10)));
}

#[test]
fn index_knows_its_sequence() {
    assert_eq!(Index::Address(addr(3)).sequence(), 3);
    assert_eq!(Index::Tombstone(4).sequence(), 4);
}

#[test]
fn no_address_is_lost_by_a_batch() {
    let mut indexer = Indexer::new(2);
    indexer.insert_batch(vec![hadrr(1, 5), hadrr(2, 5)]);
    indexer.insert_tombstone(3, 9);
    // Held: 1@5 and 2@5. Inserted: five more. Held afterwards: 1@7, 2@5 and 4@1.
    let olds = indexer.insert_batch(vec![
        hadrr(1, 6),
        hadrr(1, 7),
        hadrr(2, 4),
        hadrr(3, 8),
        hadrr(4, 1),
    ]);
    let mut olds: Vec<(u64, Sequence)> = olds.iter().map(|o| (o.hash, o.address.sequence)).collect();
    olds.sort();
    assert_eq!(olds, vec![(1, 5), (1, 6), (2, 4), (3, 8)]);
}
