use page_replace::{AccessRecord, AccessType, PageStats};

#[test]
fn empty_log() {
    let stats = PageStats::from_log(&[]);
    assert_eq!(stats.hits, 0);
    assert_eq!(stats.misses, 0);
    assert_eq!(stats.total_accesses(), 0);
}

#[test]
fn all_hits() {
    let log = vec![
        AccessRecord { page: 1, access_type: AccessType::Hit },
        AccessRecord { page: 2, access_type: AccessType::Hit },
    ];
    let stats = PageStats::from_log(&log);
    assert_eq!(stats.hits, 2);
    assert_eq!(stats.misses, 0);
    assert_eq!(stats.log, log);
}

#[test]
fn all_misses() {
    let log = vec![
        AccessRecord { page: 1, access_type: AccessType::Miss },
        AccessRecord { page: 2, access_type: AccessType::Miss },
    ];
    let stats = PageStats::from_log(&log);
    assert_eq!(stats.hits, 0);
    assert_eq!(stats.misses, 2);
    assert_eq!(stats.log, log);
}

#[test]
fn mixed() {
    let log = vec![
        AccessRecord { page: 1, access_type: AccessType::Miss },
        AccessRecord { page: 1, access_type: AccessType::Hit },
        AccessRecord { page: 2, access_type: AccessType::Miss },
        AccessRecord { page: 1, access_type: AccessType::Hit },
    ];
    let stats = PageStats::from_log(&log);
    assert_eq!(stats.hits, 2);
    assert_eq!(stats.misses, 2);
    assert_eq!(stats.total_accesses(), 4);
}
