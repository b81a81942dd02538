use page_replace::clock::ClockReplacer;
use page_replace::fifo::FifoReplacer;
use page_replace::lfu::LfuReplacer;
use page_replace::lru::LruReplacer;
use page_replace::{AccessType, PageReplacer};

const TRACE: [u32; 12] = [1, 2, 3, 4, 1, 2, 5, 1, 2, 3, 4, 5];

fn distinct_seen(prefix: &[u32]) -> usize {
    let mut seen: Vec<u32> = Vec::new();
    for p in prefix {
        if !seen.contains(p) {
            seen.push(*p);
        }
    }
    seen.len()
}

fn check_occupancy<R: PageReplacer>(mut r: R, cap: usize) {
    for (i, &p) in TRACE.iter().enumerate() {
        let first_time = !TRACE[..i].contains(&p);
        let outcome = r.access(p);
        if first_time {
            assert_eq!(outcome, AccessType::Miss);
        }
        assert_eq!(r.frame_count(), cap.min(distinct_seen(&TRACE[..=i])));
    }
}

#[test]
fn occupancy_is_min_of_capacity_and_distinct_pages() {
    for cap in 1..=6usize {
        check_occupancy(FifoReplacer::new(cap), cap);
        check_occupancy(LruReplacer::new(cap), cap);
        check_occupancy(ClockReplacer::new(cap), cap);
        check_occupancy(LfuReplacer::new(cap), cap);
    }
}

fn check_split_run<R: PageReplacer>(mut split: R, mut whole: R) {
    let (a, b) = TRACE.split_at(5);
    let sa = split.run(a);
    let sb = split.run(b);
    let sw = whole.run(&TRACE);
    let mut joined = sa.log.clone();
    joined.extend(sb.log.iter().copied());
    assert_eq!(joined, sw.log);
    assert_eq!(sa.hits + sb.hits, sw.hits);
    assert_eq!(sa.misses + sb.misses, sw.misses);
    assert_eq!(split.frame_count(), whole.frame_count());
}

#[test]
fn running_in_two_parts_equals_running_whole() {
    check_split_run(FifoReplacer::new(3), FifoReplacer::new(3));
    check_split_run(LruReplacer::new(3), LruReplacer::new(3));
    check_split_run(ClockReplacer::new(3), ClockReplacer::new(3));
    check_split_run(LfuReplacer::new(3), LfuReplacer::new(3));
}
