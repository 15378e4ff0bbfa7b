use tiering::policies::lru_2q::{Lru2qPolicy, QueueKind, ScanEntry, TrackedFile};
use tiering::policy_engine::{AccessEvent, FsEventKind, PolicyEngine};

fn engine(caps: Vec<u64>, a1out_cap: usize) -> Lru2qPolicy {
    Lru2qPolicy::new(
        b"/h".to_vec(),
        vec![b"/warm".to_vec(), b"/cold".to_vec()],
        caps,
        a1out_cap,
    )
}

fn touch(path: &[u8], ts: u64) -> AccessEvent {
    AccessEvent {
        path: path.to_vec(),
        kind: FsEventKind::Access,
        timestamp: ts,
    }
}

fn entry(path: &[u8], rank: usize, size: u64, temp: bool) -> ScanEntry {
    ScanEntry {
        path: path.to_vec(),
        rank,
        size,
        temp,
    }
}

fn find<'a>(e: &'a Lru2qPolicy, path: &[u8]) -> Option<&'a TrackedFile> {
    e.files.iter().find(|f| f.path.as_slice() == path)
}

#[test]
fn single_access_admits_to_a1in_and_moves_nothing() {
    let mut e = engine(vec![10, 10], 4);
    e.ingest_batch(&[touch(b"a.txt", 1)]);
    let f = find(&e, b"a.txt").expect("tracked");
    assert_eq!(f.rank, 0);
    assert_eq!(f.queue, QueueKind::A1In);
    assert!(!f.pending);
    let moves = e.rebalance();
    assert!(moves.is_empty());
    assert_eq!(find(&e, b"a.txt").unwrap().rank, 0);
}

#[test]
fn second_access_in_hot_joins_am_without_a_move() {
    let mut e = engine(vec![10, 10], 4);
    e.ingest_batch(&[touch(b"a.txt", 1)]);
    e.ingest_batch(&[touch(b"a.txt", 2)]);
    let f = find(&e, b"a.txt").expect("tracked");
    assert_eq!(f.rank, 0);
    assert_eq!(f.queue, QueueKind::Am);
    assert!(!f.pending);
    let moves = e.rebalance();
    assert!(moves.is_empty());
    assert_eq!(find(&e, b"a.txt").unwrap().rank, 0);
}

#[test]
fn second_sighting_of_cold_file_is_promoted_one_tier() {
    let mut e = engine(vec![10, 10], 4);
    let strays = e.reconcile(&vec![entry(b"b.txt", 2, 1, false)]);
    assert!(strays.is_empty());
    assert_eq!(find(&e, b"b.txt").unwrap().rank, 2);
    assert_eq!(find(&e, b"b.txt").unwrap().queue, QueueKind::A1In);
    e.ingest_batch(&[touch(b"b.txt", 3)]);
    let f = find(&e, b"b.txt").unwrap();
    assert_eq!(f.queue, QueueKind::Am);
    assert!(f.pending);
    let moves = e.rebalance();
    assert_eq!(moves.len(), 1);
    assert_eq!(moves[0].path, b"b.txt".to_vec());
    assert_eq!(moves[0].from_rank, 2);
    assert_eq!(moves[0].to_rank, 1);
    let f = find(&e, b"b.txt").unwrap();
    assert_eq!(f.rank, 1);
    assert_eq!(f.queue, QueueKind::Am);
    assert!(!f.pending);
}

#[test]
fn reorganize_twice_moves_nothing_the_second_time() {
    let mut e = engine(vec![10, 10], 4);
    e.reconcile(&vec![entry(b"b.txt", 2, 1, false)]);
    e.ingest_batch(&[touch(b"b.txt", 3)]);
    let first = e.rebalance();
    assert_eq!(first.len(), 1);
    let second = e.rebalance();
    assert!(second.is_empty());
    assert_eq!(find(&e, b"b.txt").unwrap().rank, 1);
}

#[test]
fn over_capacity_demotes_lexicographically_smallest_on_equal_recency() {
    let mut e = engine(vec![100, 2], 4);
    e.reconcile(&vec![
        entry(b"b.txt", 1, 1, false),
        entry(b"a.txt", 1, 1, false),
        entry(b"c.txt", 1, 1, false),
    ]);
    let moves = e.rebalance();
    assert_eq!(moves.len(), 1);
    assert_eq!(moves[0].path, b"a.txt".to_vec());
    assert_eq!(moves[0].from_rank, 1);
    assert_eq!(moves[0].to_rank, 2);
    let a = find(&e, b"a.txt").unwrap();
    assert_eq!(a.rank, 2);
    assert_eq!(a.queue, QueueKind::A1Out);
    assert_eq!(find(&e, b"b.txt").unwrap().rank, 1);
    assert_eq!(find(&e, b"c.txt").unwrap().rank, 1);
}

#[test]
fn older_recency_is_demoted_before_newer() {
    let mut e = engine(vec![1, 100], 4);
    e.reconcile(&vec![
        entry(b"a.txt", 0, 1, false),
        entry(b"b.txt", 0, 1, false),
    ]);
    e.ingest_batch(&[touch(b"a.txt", 10)]);
    let moves = e.rebalance();
    assert_eq!(moves.len(), 1);
    assert_eq!(moves[0].path, b"b.txt".to_vec());
    assert_eq!(find(&e, b"a.txt").unwrap().rank, 0);
    assert_eq!(find(&e, b"b.txt").unwrap().rank, 1);
}

#[test]
fn overflow_cascades_toward_the_coldest_tier() {
    let mut e = engine(vec![1, 1], 4);
    e.reconcile(&vec![
        entry(b"a.txt", 0, 1, false),
        entry(b"b.txt", 0, 1, false),
        entry(b"c.txt", 0, 1, false),
    ]);
    let moves = e.rebalance();
    assert_eq!(moves.len(), 3);
    assert_eq!(find(&e, b"c.txt").unwrap().rank, 0);
    assert_eq!(find(&e, b"b.txt").unwrap().rank, 1);
    assert_eq!(find(&e, b"a.txt").unwrap().rank, 2);
}

#[test]
fn a1out_queue_is_trimmed_to_its_bound() {
    let mut e = engine(vec![1, 100], 1);
    e.reconcile(&vec![
        entry(b"a.txt", 0, 1, false),
        entry(b"b.txt", 0, 1, false),
        entry(b"c.txt", 0, 1, false),
    ]);
    let moves = e.rebalance();
    assert_eq!(moves.len(), 2);
    assert!(find(&e, b"a.txt").is_none());
    let b = find(&e, b"b.txt").unwrap();
    assert_eq!(b.rank, 1);
    assert_eq!(b.queue, QueueKind::A1Out);
    assert_eq!(find(&e, b"c.txt").unwrap().rank, 0);
}

#[test]
fn remove_event_deletes_the_record() {
    let mut e = engine(vec![10, 10], 4);
    e.ingest_batch(&[touch(b"a.txt", 1)]);
    assert!(find(&e, b"a.txt").is_some());
    e.ingest_batch(&[AccessEvent {
        path: b"a.txt".to_vec(),
        kind: FsEventKind::Remove,
        timestamp: 2,
    }]);
    assert!(find(&e, b"a.txt").is_none());
}

#[test]
fn other_events_change_nothing() {
    let mut e = engine(vec![10, 10], 4);
    e.ingest_batch(&[AccessEvent {
        path: b"a.txt".to_vec(),
        kind: FsEventKind::Other,
        timestamp: 1,
    }]);
    assert!(find(&e, b"a.txt").is_none());
}

#[test]
fn interrupted_migration_keeps_the_committed_copy() {
    let mut e = engine(vec![10, 10], 4);
    let strays = e.reconcile(&vec![
        entry(b"p.txt", 1, 5, false),
        entry(b"p.txt", 0, 5, true),
    ]);
    assert_eq!(e.files.len(), 1);
    let f = find(&e, b"p.txt").unwrap();
    assert_eq!(f.rank, 1);
    assert_eq!(f.size, 5);
    assert_eq!(strays.len(), 1);
    assert_eq!(strays[0].path, b"p.txt".to_vec());
    assert_eq!(strays[0].rank, 0);
    assert!(strays[0].temp);
}

#[test]
fn interrupted_migration_scan_order_does_not_matter() {
    let mut e = engine(vec![10, 10], 4);
    let strays = e.reconcile(&vec![
        entry(b"p.txt", 0, 5, true),
        entry(b"p.txt", 1, 5, false),
    ]);
    assert_eq!(e.files.len(), 1);
    assert_eq!(find(&e, b"p.txt").unwrap().rank, 1);
    assert_eq!(strays.len(), 1);
    assert!(strays[0].temp);
}

#[test]
fn warmest_committed_copy_wins_and_colder_duplicate_is_a_stray() {
    let mut e = engine(vec![10, 10], 4);
    let strays = e.reconcile(&vec![
        entry(b"p.txt", 2, 5, false),
        entry(b"p.txt", 1, 5, false),
    ]);
    assert_eq!(e.files.len(), 1);
    assert_eq!(find(&e, b"p.txt").unwrap().rank, 1);
    assert_eq!(strays.len(), 1);
    assert_eq!(strays[0].rank, 2);
    assert!(!strays[0].temp);
}

#[test]
fn committed_destination_wins_over_a_leftover_source_copy() {
    let mut e = engine(vec![10, 10], 4);
    e.reconcile(&vec![entry(b"p.txt", 2, 5, false)]);
    assert_eq!(find(&e, b"p.txt").unwrap().rank, 2);
    let strays = e.reconcile(&vec![
        entry(b"p.txt", 1, 5, false),
        entry(b"p.txt", 2, 5, false),
    ]);
    assert_eq!(find(&e, b"p.txt").unwrap().rank, 2);
    assert_eq!(strays.len(), 1);
    assert_eq!(strays[0].rank, 1);
    assert!(!strays[0].temp);
}

#[test]
fn failed_promotion_copy_is_decided_again() {
    let mut e = engine(vec![10, 10], 4);
    e.reconcile(&vec![entry(b"b.txt", 2, 1, false)]);
    e.ingest_batch(&[touch(b"b.txt", 3)]);
    let first = e.rebalance();
    assert_eq!(first.len(), 1);
    assert_eq!(find(&e, b"b.txt").unwrap().rank, 1);
    let strays = e.reconcile(&vec![entry(b"b.txt", 2, 1, false)]);
    assert!(strays.is_empty());
    let f = find(&e, b"b.txt").unwrap();
    assert_eq!(f.rank, 2);
    assert!(f.pending);
    let retry = e.rebalance();
    assert_eq!(retry.len(), 1);
    assert_eq!(retry[0].from_rank, 2);
    assert_eq!(retry[0].to_rank, 1);
    assert_eq!(find(&e, b"b.txt").unwrap().rank, 1);
}

#[test]
fn interrupted_promotion_keeps_the_source_and_discards_the_temp() {
    let mut e = engine(vec![10, 10], 4);
    e.reconcile(&vec![entry(b"b.txt", 2, 1, false)]);
    e.ingest_batch(&[touch(b"b.txt", 3)]);
    e.rebalance();
    let strays = e.reconcile(&vec![
        entry(b"b.txt", 2, 1, false),
        entry(b"b.txt", 1, 1, true),
    ]);
    assert_eq!(strays.len(), 1);
    assert!(strays[0].temp);
    assert_eq!(strays[0].rank, 1);
    let f = find(&e, b"b.txt").unwrap();
    assert_eq!(f.rank, 2);
    assert!(f.pending);
}

#[test]
fn reorganize_through_the_trait_fills_the_outbox() {
    let mut e = engine(vec![10, 10], 4);
    e.reconcile(&vec![entry(b"b.txt", 2, 1, false)]);
    PolicyEngine::ingest(&mut e, &[touch(b"b.txt", 3)]);
    let r = PolicyEngine::reorganize(&mut e);
    assert!(r.is_ok());
    let moves = e.take_migrations();
    assert_eq!(moves.len(), 1);
    assert_eq!(moves[0].path, b"b.txt".to_vec());
    assert!(e.take_migrations().is_empty());
}

#[test]
fn access_frequency_counts_touches() {
    let mut e = engine(vec![10, 10], 4);
    e.ingest_batch(&[touch(b"a.txt", 1), touch(b"a.txt", 2), touch(b"a.txt", 3)]);
    assert_eq!(find(&e, b"a.txt").unwrap().freq, 3);
    assert_eq!(find(&e, b"a.txt").unwrap().recency, 3);
}
