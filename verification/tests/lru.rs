use page_replace::lru::LruReplacer;
use page_replace::{AccessType, PageReplacer};

#[test]
fn lru_initial_state() {
    let r = LruReplacer::new(3);
    assert_eq!(r.frame_count(), 0);
    assert_eq!(r.capacity(), 3);
}

#[test]
fn lru_miss_then_hit() {
    let mut r = LruReplacer::new(3);
    assert_eq!(r.access(1), AccessType::Miss);
    assert_eq!(r.access(1), AccessType::Hit);
}

#[test]
fn lru_evicts_oldest_access() {
    let mut r = LruReplacer::new(2);
    r.access(1); // frames: [(1,t1)]
    r.access(2); // frames: [(1,t1), (2,t2)]
    r.access(1); // hit, updates 1 -> t3
    assert_eq!(r.access(3), AccessType::Miss); // evicts 2 (t2 < t3)
    assert_eq!(r.access(2), AccessType::Miss); // 2 was evicted
    assert_eq!(r.access(3), AccessType::Hit); // 3 still here
}

#[test]
fn run_full_trace() {
    let mut r = LruReplacer::new(3);
    let stats = r.run(&[1, 2, 3, 4, 1, 2, 5, 1, 2, 3, 4, 5]);
    // LRU with 3 frames on this trace: 10 misses
    assert_eq!(stats.misses, 10);
}

#[test]
fn no_belady_anomaly() {
    // LRU is stack algorithm — no Belady's anomaly
    let mut r3 = LruReplacer::new(3);
    let stats3 = r3.run(&[1, 2, 3, 4, 1, 2, 5, 1, 2, 3, 4, 5]);

    let mut r4 = LruReplacer::new(4);
    let stats4 = r4.run(&[1, 2, 3, 4, 1, 2, 5, 1, 2, 3, 4, 5]);

    assert!(stats4.misses <= stats3.misses);
}

#[test]
fn lru_more_frames_never_more_misses() {
    let trace = [7u32, 0, 1, 2, 0, 3, 0, 4, 2, 3, 0, 3, 2, 1, 2, 0, 1, 7, 0, 1];
    let mut previous = usize::MAX;
    for cap in 1..=8usize {
        let mut r = LruReplacer::new(cap);
        let stats = r.run(&trace);
        assert!(stats.misses <= previous);
        previous = stats.misses;
    }
    let mut r4 = LruReplacer::new(4);
    assert_eq!(r4.run(&trace).misses, 8);
}

#[test]
fn lru_frame_count_grows_to_capacity() {
    let mut r = LruReplacer::new(2);
    r.access(1);
    assert_eq!(r.frame_count(), 1);
    r.access(1);
    assert_eq!(r.frame_count(), 1);
    r.access(2);
    r.access(3);
    assert_eq!(r.frame_count(), 2);
}
