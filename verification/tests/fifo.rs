use page_replace::fifo::FifoReplacer;
use page_replace::{AccessType, PageReplacer};

#[test]
fn fifo_initial_state() {
    let r = FifoReplacer::new(3);
    assert_eq!(r.frame_count(), 0);
    assert_eq!(r.capacity(), 3);
}

#[test]
fn single_miss() {
    let mut r = FifoReplacer::new(3);
    assert_eq!(r.access(1), AccessType::Miss);
    assert_eq!(r.frame_count(), 1);
}

#[test]
fn hit_on_loaded() {
    let mut r = FifoReplacer::new(3);
    r.access(1);
    assert_eq!(r.access(1), AccessType::Hit);
}

#[test]
fn fifo_eviction_order() {
    let mut r = FifoReplacer::new(2);
    r.access(1); // miss, frames: [1]
    r.access(2); // miss, frames: [1, 2]
    r.access(3); // miss, evicts 1, frames: [2, 3]
    assert_eq!(r.access(1), AccessType::Miss); // 1 was evicted
}

#[test]
fn belady_anomaly() {
    // Classic Belady's anomaly: more frames can mean more faults with FIFO
    let mut r3 = FifoReplacer::new(3);
    let stats3 = r3.run(&[1, 2, 3, 4, 1, 2, 5, 1, 2, 3, 4, 5]);

    let mut r4 = FifoReplacer::new(4);
    let stats4 = r4.run(&[1, 2, 3, 4, 1, 2, 5, 1, 2, 3, 4, 5]);

    // With 3 frames: 9 faults. With 4 frames: 10 faults (Belady's anomaly)
    assert_eq!(stats3.misses, 9);
    assert_eq!(stats4.misses, 10);
}

#[test]
fn full_capacity_no_eviction() {
    let mut r = FifoReplacer::new(3);
    r.access(1);
    r.access(2);
    r.access(3);
    // All hit now
    assert_eq!(r.access(2), AccessType::Hit);
    assert_eq!(r.access(3), AccessType::Hit);
    assert_eq!(r.access(1), AccessType::Hit);
}

#[test]
fn fifo_hit_does_not_refresh_age() {
    // A hit does not move a page to the back of the queue.
    let mut r = FifoReplacer::new(2);
    r.access(1);
    r.access(2);
    assert_eq!(r.access(1), AccessType::Hit);
    assert_eq!(r.access(3), AccessType::Miss); // evicts 1, the oldest load
    assert_eq!(r.access(2), AccessType::Hit);
    assert_eq!(r.access(1), AccessType::Miss);
}

#[test]
fn fifo_frame_count_bounded_by_capacity() {
    let mut r = FifoReplacer::new(3);
    for p in [5u32, 6, 7, 8, 9, 5, 6, 10] {
        r.access(p);
        assert!(r.frame_count() <= r.capacity());
    }
    assert_eq!(r.frame_count(), 3);
}

#[test]
fn fifo_zero_capacity_loads_nothing() {
    let mut r = FifoReplacer::new(0);
    assert_eq!(r.access(7), AccessType::Miss);
    assert_eq!(r.frame_count(), 0);
    assert_eq!(r.access(7), AccessType::Miss);
    assert_eq!(r.access(8), AccessType::Miss);
    assert_eq!(r.frame_count(), 0);
    assert!(r.frame_count() <= r.capacity());
    let stats = r.run(&[1, 1, 2]);
    assert_eq!(stats.hits, 0);
    assert_eq!(stats.misses, 3);
}

#[test]
fn fifo_run_log_matches_references() {
    let mut r = FifoReplacer::new(2);
    let refs = [4u32, 4, 5, 6, 4];
    let stats = r.run(&refs);
    let pages: Vec<u32> = stats.log.iter().map(|rec| rec.page).collect();
    assert_eq!(pages, refs.to_vec());
    let kinds: Vec<AccessType> = stats.log.iter().map(|rec| rec.access_type).collect();
    assert_eq!(
        kinds,
        vec![AccessType::Miss, AccessType::Hit, AccessType::Miss, AccessType::Miss, AccessType::Miss]
    );
    assert_eq!(stats.hits, 1);
    assert_eq!(stats.misses, 4);
    assert_eq!(stats.total_accesses(), 5);
}
