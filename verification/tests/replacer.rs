use pagedb::replacer::{AccessType, LRUKNode, LRUKReplacer};

#[test]
fn test_evict() {
    let mut replacer = LRUKReplacer::new(2);

    {
        for i in 0..8 {
            replacer.remove(i);
            replacer.record_access(i, AccessType::Get);
            replacer.pin(i);
        }

        for i in (0..8).rev() {
            replacer.unpin(i);

            let have = replacer.evict();
            let want = Some(i);
            assert!(want == have, "Want: {want:?}, Have: {have:?}");
        }
    }
}

#[test]
fn evict_never_returns_pinned_frame() {
    let mut replacer = LRUKReplacer::new(2);
    for i in 0..4 {
        replacer.record_access(i, AccessType::Scan);
        replacer.record_access(i, AccessType::Scan);
    }
    replacer.pin(1);
    replacer.pin(3);
    for _ in 0..4 {
        if let Some(f) = replacer.evict() {
            assert!(f != 1 && f != 3, "evicted a pinned frame: {f}");
            replacer.remove(f);
        }
    }
    assert_eq!(replacer.evict(), None);
}

#[test]
fn k_distance_formula() {
    let mut node = LRUKNode::new(0, 10);
    assert_eq!(node.get_k_distance(2), None);
    node.history.push(14);
    node.history.push(21);
    // Newest (21) minus the second-newest (14).
    assert_eq!(node.get_k_distance(2), Some(7));
    assert_eq!(node.get_k_distance(3), Some(11));
    assert_eq!(node.get_k_distance(4), None);
}

#[test]
fn evict_prefers_largest_k_distance() {
    let mut replacer = LRUKReplacer::new(2);
    // Frame 0: accesses at ts 0 and 2 (distance 2).
    // Frame 1: accesses at ts 1 and 3 (distance 2, higher frame id).
    // Frame 2: accesses at ts 4 and 5 (distance 1).
    replacer.record_access(0, AccessType::Get);
    replacer.record_access(1, AccessType::Get);
    replacer.record_access(0, AccessType::Get);
    replacer.record_access(1, AccessType::Get);
    replacer.record_access(2, AccessType::Get);
    replacer.record_access(2, AccessType::Get);
    // Ties break to the lowest frame id.
    assert_eq!(replacer.evict(), Some(0));
    replacer.remove(0);
    assert_eq!(replacer.evict(), Some(1));
    replacer.remove(1);
    assert_eq!(replacer.evict(), Some(2));
}

#[test]
fn evict_uses_earliest_last_access_below_k() {
    let mut replacer = LRUKReplacer::new(3);
    // No frame has three accesses, so the earliest last access wins.
    replacer.record_access(0, AccessType::Get);
    replacer.record_access(1, AccessType::Get);
    replacer.record_access(2, AccessType::Get);
    replacer.record_access(0, AccessType::Get);
    // Last accesses: frame 0 at ts 3, frame 1 at ts 1, frame 2 at ts 2.
    assert_eq!(replacer.evict(), Some(1));
    replacer.remove(1);
    assert_eq!(replacer.evict(), Some(2));
    replacer.remove(2);
    assert_eq!(replacer.evict(), Some(0));
}

#[test]
fn unpin_does_not_underflow() {
    let mut replacer = LRUKReplacer::new(2);
    replacer.record_access(0, AccessType::Get);
    replacer.unpin(0);
    // Still evictable and still tracked.
    assert_eq!(replacer.evict(), Some(0));
}
