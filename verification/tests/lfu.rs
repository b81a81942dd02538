use page_replace::lfu::LfuReplacer;
use page_replace::{AccessType, PageReplacer};

#[test]
fn lfu_initial_state() {
    let r = LfuReplacer::new(3);
    assert_eq!(r.frame_count(), 0);
    assert_eq!(r.capacity(), 3);
}

#[test]
fn lfu_miss_then_hit() {
    let mut r = LfuReplacer::new(3);
    assert_eq!(r.access(1), AccessType::Miss);
    assert_eq!(r.access(1), AccessType::Hit);
}

#[test]
fn evicts_lowest_frequency() {
    let mut r = LfuReplacer::new(2);
    r.access(1); // freq(1)=1
    r.access(2); // freq(2)=1
    r.access(1); // hit, freq(1)=2
    r.access(3); // miss, evicts 2 (freq=1 < freq(1)=2)
    assert_eq!(r.access(2), AccessType::Miss);
    assert_eq!(r.access(1), AccessType::Hit);
}

#[test]
fn tie_break_by_insertion_order() {
    let mut r = LfuReplacer::new(2);
    r.access(1); // freq(1)=1
    r.access(2); // freq(2)=1
    // Both have freq 1, evict first inserted (1)
    r.access(3); // evicts 1
    assert_eq!(r.access(1), AccessType::Miss);
    assert_eq!(r.access(2), AccessType::Hit);
}

#[test]
fn lfu_run_trace() {
    let mut r = LfuReplacer::new(3);
    let stats = r.run(&[1, 2, 3, 4, 1, 2, 5, 1, 2, 3, 4, 5]);
    assert!(stats.misses > 0);
    assert_eq!(stats.total_accesses(), 12);
}

#[test]
fn frequency_accumulates() {
    let mut r = LfuReplacer::new(3);
    r.access(1); // miss, freq(1)=1
    r.access(1); // hit, freq(1)=2
    r.access(1); // hit, freq(1)=3
    r.access(2); // miss, freq(2)=1
    // Page 1 has freq 3, page 2 has freq 1
    assert_eq!(r.frequency(1), Some(3));
    assert_eq!(r.frequency(2), Some(1));
}

#[test]
fn lfu_tie_break_by_frame_position() {
    let mut r = LfuReplacer::new(2);
    r.access(1);
    r.access(2);
    r.access(3); // evicts 1; 3 takes its frame, so the frames hold 3, 2
    r.access(4); // 3 and 2 both have frequency 1: 3 is in the earlier frame and leaves
    assert_eq!(r.frequency(3), None);
    assert_eq!(r.frequency(2), Some(1));
    assert_eq!(r.frequency(4), Some(1));
    assert_eq!(r.access(2), AccessType::Hit);
}

#[test]
fn lfu_frequency_resets_after_eviction() {
    let mut r = LfuReplacer::new(1);
    r.access(1);
    r.access(1);
    assert_eq!(r.frequency(1), Some(2));
    assert_eq!(r.access(2), AccessType::Miss); // evicts 1
    assert_eq!(r.frequency(1), None);
    assert_eq!(r.access(1), AccessType::Miss);
    assert_eq!(r.frequency(1), Some(1));
}
