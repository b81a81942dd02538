use page_replace::clock::ClockReplacer;
use page_replace::{AccessType, PageReplacer};

#[test]
fn clock_initial_state() {
    let r = ClockReplacer::new(3);
    assert_eq!(r.frame_count(), 0);
    assert_eq!(r.capacity(), 3);
}

#[test]
fn fill_frames() {
    let mut r = ClockReplacer::new(3);
    assert_eq!(r.access(1), AccessType::Miss);
    assert_eq!(r.access(2), AccessType::Miss);
    assert_eq!(r.access(3), AccessType::Miss);
    assert_eq!(r.frame_count(), 3);
}

#[test]
fn hit_sets_ref_bit() {
    let mut r = ClockReplacer::new(3);
    r.access(1);
    r.access(2);
    r.access(3);
    // Access 1 again (hit) — sets ref bit
    assert_eq!(r.access(1), AccessType::Hit);
    // Now load 4 — should evict 2 (hand advances past 1 due to ref bit)
    assert_eq!(r.access(4), AccessType::Miss);
}

#[test]
fn second_chance() {
    let mut r = ClockReplacer::new(3);
    r.access(1); // [Some((1,true)), None, None]
    r.access(2); // [Some((1,true)), Some((2,true)), None]
    r.access(3); // [Some((1,true)), Some((2,true)), Some((3,true))]
    r.access(1); // hit, ref bit already true
    r.access(4); // miss, evict: hand scans, clears all ref bits, evicts 1
    // frames: [Some(4,true), Some(2,false), Some(3,false)], hand=1
    assert_eq!(r.access(1), AccessType::Miss); // 1 was evicted, evicts 2
    assert_eq!(r.access(4), AccessType::Hit); // 4 still present
}

#[test]
fn clock_run_trace() {
    let mut r = ClockReplacer::new(3);
    let stats = r.run(&[1, 2, 3, 4, 1, 2, 5, 1, 2, 3, 4, 5]);
    assert!(stats.misses > 0);
    assert!(stats.total_accesses() == 12);
}

#[test]
fn clock_run_trace_exact_counts() {
    let mut r = ClockReplacer::new(3);
    let stats = r.run(&[1, 2, 3, 4, 1, 2, 5, 1, 2, 3, 4, 5]);
    assert_eq!(stats.misses, 9);
    assert_eq!(stats.hits, 3);
}

#[test]
fn clock_clear_bit_evicted_before_set_bit() {
    let mut r = ClockReplacer::new(3);
    r.access(1);
    r.access(2);
    r.access(3);
    r.access(4); // full sweep clears every bit, evicts 1; hand now at slot of 2
    assert_eq!(r.access(3), AccessType::Hit); // sets 3's bit again
    assert_eq!(r.access(5), AccessType::Miss); // 2 has a clear bit under the hand: evicted
    assert_eq!(r.access(3), AccessType::Hit);
    assert_eq!(r.access(4), AccessType::Hit);
    assert_eq!(r.access(2), AccessType::Miss);
    assert_eq!(r.frame_count(), 3);
}
