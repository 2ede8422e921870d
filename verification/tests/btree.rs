use pagedb::btree::BTree;
use pagedb::disk::Memory;
use pagedb::page::{NO_PAGE, PAGE_SIZE};
use pagedb::page_cache::PageCache;
use pagedb::replacer::LRUKReplacer;
use pagedb::slot::{Either, Slot};
use pagedb::StoreError;

/// A deterministic shuffle of the keys in `range`, paired with `k + 10`.
fn inserts(range: std::ops::Range<i64>) -> Vec<(i64, i32)> {
    let mut keys: Vec<i64> = range.collect();
    // Fisher-Yates driven by a fixed linear congruential generator.
    let mut state: u64 = 0x5DEECE66D;
    let mut i = keys.len();
    while i > 1 {
        state = state
            .wrapping_mul(6364136223846793005)
            .wrapping_add(1442695040888963407);
        let j = (state >> 33) as usize % i;
        i -= 1;
        keys.swap(i, j);
    }
    keys.into_iter().map(|k| (k, (k + 10) as i32)).collect()
}

fn setup(frames: usize) -> PageCache {
    let disk = Memory::new(4096);
    let lru = LRUKReplacer::new(2);
    PageCache::new(disk, lru, frames)
}

#[test]
fn test_btree_values() {
    const MAX: u32 = 8;
    let mut pc = setup(128);
    let mut btree = BTree::new(MAX);

    // Insert and get
    let ins = inserts(-50..50);
    for (k, v) in &ins {
        btree.insert(&mut pc, *k, *v).unwrap();
    }

    pc.flush_all_pages().unwrap();

    for (k, v) in &ins {
        let have = btree.get(&mut pc, *k).unwrap();
        let want = Some(Slot(*k, Either::Value(*v)));
        assert!(want == have, "\nWant: {:?}\nHave: {:?}\n", want, have);
    }

    // Delete half and make sure they no longer exist in the tree
    let (first_half, second_half) = ins.split_at(ins.len() / 2);
    for (k, _) in first_half {
        btree.delete(&mut pc, *k).unwrap();
    }

    pc.flush_all_pages().unwrap();

    for (k, _) in first_half {
        match btree.get(&mut pc, *k).unwrap() {
            Some(_) => panic!("Unexpected deleted key: {:x?}", k),
            None => {}
        };
    }

    // Make sure other half can still be accessed
    for (k, v) in second_half {
        let test = match btree.get(&mut pc, *k).unwrap() {
            Some(t) => t,
            None => panic!("Could not find {:x?}:{v} in the second half", k),
        };

        let have = match test.1 {
            Either::Value(v) => v,
            Either::Pointer(_) => unreachable!(),
        };
        assert!(have == *v, "Want: {v}\nHave: {have}");
    }

    // Insert and get a different range
    let ins = inserts(-25..100);
    for (k, v) in &ins {
        btree.insert(&mut pc, *k, *v).unwrap();
    }

    pc.flush_all_pages().unwrap();

    for (k, v) in &ins {
        let have = btree.get(&mut pc, *k).unwrap();
        let want = Some(Slot(*k, Either::Value(*v)));
        assert!(want == have, "\nWant: {:?}\nHave: {:?}\n", want, have);
    }
}

#[test]
fn test_btree_scan() {
    const MAX: u32 = 8;
    let mut pc = setup(64);
    let mut btree = BTree::new(MAX);

    let mut want = inserts(-50..50);
    for (k, v) in &want {
        btree.insert(&mut pc, *k, *v).unwrap();
    }

    pc.flush_all_pages().unwrap();

    for (k, v) in &want {
        let have = btree.get(&mut pc, *k).unwrap();
        let expect = Some(Slot(*k, Either::Value(*v)));
        assert!(expect == have, "\nWant: {:?}\nHave: {:?}\n", expect, have);
    }

    want.sort_by(|(k, _), (k0, _)| k.cmp(k0));
    let have = btree.scan(&mut pc).unwrap();
    assert!(want == have, "\nWant: {:?}\nHave: {:?}\n", want, have);
}

#[test]
fn test_btree_range() {
    struct TestCase {
        name: &'static str,
        range: std::ops::Range<i64>,
        from: i64,
        to: i64,
    }

    const MAX: u32 = 8;
    let mut pc = setup(128);

    let tcs = [
        TestCase {
            name: "random range",
            range: -50..50,
            from: -17,
            to: 23,
        },
        TestCase {
            name: "out of bounds range",
            range: -50..50,
            from: -100,
            to: -50,
        },
    ];

    for TestCase {
        name,
        range,
        from,
        to,
    } in tcs
    {
        let mut btree = BTree::new(MAX);

        let mut ins = inserts(range);
        for (k, v) in &ins {
            btree.insert(&mut pc, *k, *v).unwrap();
        }

        pc.flush_all_pages().unwrap();

        for (k, v) in &ins {
            let have = btree.get(&mut pc, *k).unwrap();
            let want = Some(Slot(*k, Either::Value(*v)));
            assert!(want == have, "\nWant: {:?}\nHave: {:?}\n", want, have);
        }

        ins.sort_by(|(k, _), (k0, _)| k.cmp(k0));

        let want = ins
            .into_iter()
            .filter(|(k, _)| *k >= from && *k <= to)
            .collect::<Vec<(i64, i32)>>();

        let have = btree.range(&mut pc, from, to).unwrap();
        assert!(
            want == have,
            "TestCase \"{}\" failed:\nWant: {:?}\nHave: {:?}\nRange: {:?}",
            name,
            want,
            have,
            (from, to)
        );
    }
}

#[test]
fn range_spans_a_leaf_emptied_by_deletes() {
    // Deletes never unlink a leaf; a range must still walk past one that
    // they emptied and return everything in bounds beyond it.
    let mut pc = setup(64);
    let mut btree = BTree::new(8);
    for k in 0..30i64 {
        btree.insert(&mut pc, k, k as i32).unwrap();
    }
    // Carve a hole wide enough to empty at least one whole leaf (max 8
    // means leaves hold at most 7 entries).
    for k in 10..20i64 {
        assert!(btree.delete(&mut pc, k).unwrap());
    }
    let want: Vec<(i64, i32)> = (5..10).chain(20..28).map(|k| (k, k as i32)).collect();
    let have = btree.range(&mut pc, 5, 27).unwrap();
    assert_eq!(want, have);
}

#[test]
fn range_with_inverted_bounds_is_empty() {
    let mut pc = setup(16);
    let mut btree = BTree::new(8);
    for k in 0..10i64 {
        btree.insert(&mut pc, k, k as i32).unwrap();
    }
    assert_eq!(btree.range(&mut pc, 7, 3).unwrap(), Vec::new());
}

#[test]
fn range_of_lowest_key_only() {
    let mut pc = setup(128);
    let mut btree = BTree::new(8);
    for k in -50..50i64 {
        btree.insert(&mut pc, k, (k + 10) as i32).unwrap();
    }
    let have = btree.range(&mut pc, -100, -50).unwrap();
    assert_eq!(have, vec![(-50, -40)]);
}

#[test]
fn small_cache_pins_return_to_zero() {
    // Four frames only: every operation still succeeds, and no pins leak.
    let mut pc = setup(4);
    let mut btree = BTree::new(8);
    let ins = inserts(-50..50);
    for (k, v) in &ins {
        btree.insert(&mut pc, *k, *v).unwrap();
        for f in &pc.frames {
            assert_eq!(f.pin, 0);
        }
    }
    for (k, v) in &ins {
        let have = btree.get(&mut pc, *k).unwrap();
        assert_eq!(have, Some(Slot(*k, Either::Value(*v))));
        for f in &pc.frames {
            assert_eq!(f.pin, 0);
        }
    }
    let scanned = btree.scan(&mut pc).unwrap();
    assert_eq!(scanned.len(), 100);
    for f in &pc.frames {
        assert_eq!(f.pin, 0);
    }
}

#[test]
fn persistence_across_reopen() {
    let mut pc = setup(16);
    let mut btree = BTree::new(8);
    let ins = inserts(-50..50);
    for (k, v) in &ins {
        btree.insert(&mut pc, *k, *v).unwrap();
    }
    let before = btree.scan(&mut pc).unwrap();

    pc.flush_all_pages().unwrap();
    let root = btree.root();
    let disk = pc.into_disk();

    // Full cache teardown: a fresh cache over the same disk, and the tree
    // reconstructed at the same root.
    let mut pc2 = PageCache::new(disk, LRUKReplacer::new(2), 16);
    let btree2 = BTree { root, max: 8 };
    let after = btree2.scan(&mut pc2).unwrap();
    assert_eq!(before, after);
    assert_eq!(after.len(), 100);
}

#[test]
fn scan_is_sorted_and_unique() {
    let mut pc = setup(64);
    let mut btree = BTree::new(8);
    for (k, v) in inserts(-50..50) {
        btree.insert(&mut pc, k, v).unwrap();
    }
    let scanned = btree.scan(&mut pc).unwrap();
    assert_eq!(scanned.len(), 100);
    for w in scanned.windows(2) {
        assert!(w[0].0 < w[1].0, "not strictly ascending: {:?}", w);
    }
}

#[test]
fn overwrite_wins() {
    let mut pc = setup(16);
    let mut btree = BTree::new(8);
    btree.insert(&mut pc, 7, 1).unwrap();
    btree.insert(&mut pc, 7, 2).unwrap();
    assert_eq!(
        btree.get(&mut pc, 7).unwrap(),
        Some(Slot(7, Either::Value(2)))
    );
    assert_eq!(btree.scan(&mut pc).unwrap(), vec![(7, 2)]);
}

#[test]
fn empty_tree_operations() {
    let mut pc = setup(4);
    let btree = BTree::new(8);
    assert_eq!(btree.root(), NO_PAGE);
    assert_eq!(btree.get(&mut pc, 1).unwrap(), None);
    assert_eq!(btree.scan(&mut pc).unwrap(), Vec::new());
    assert_eq!(btree.range(&mut pc, 0, 10).unwrap(), Vec::new());
    assert_eq!(btree.delete(&mut pc, 1).unwrap(), false);
}

#[test]
fn error_io_on_absent_page() {
    let mut pc = setup(4);
    assert_eq!(pc.read_page(99), Err(StoreError::Io));
    assert_eq!(pc.read_page(-2), Err(StoreError::Io));
}

#[test]
fn error_out_of_memory_when_all_frames_pinned() {
    let mut pc = setup(1);
    let p0 = pc.new_page().unwrap();
    let p1 = pc.new_page();
    // The only frame is still pinned by the first page.
    assert_eq!(p1, Err(StoreError::OutOfMemory));
    pc.unpin_page(p0);
    let p1 = pc.new_page().unwrap();
    assert_eq!(p1, 1);
}

#[test]
fn error_corrupt_page_on_garbage() {
    let mut pc = setup(4);
    let p = pc.new_page().unwrap();
    pc.unpin_page(p);
    // A zeroed page has an unknown node kind byte.
    let btree = BTree { root: p, max: 8 };
    assert_eq!(btree.get(&mut pc, 1), Err(StoreError::CorruptPage));
    assert_eq!(btree.scan(&mut pc), Err(StoreError::CorruptPage));
}

#[test]
fn leaf_count_counts_chain_links() {
    let mut pc = setup(64);
    let mut btree = BTree::new(8);
    assert_eq!(btree.leaf_count(&mut pc).unwrap(), 0);
    for k in 0..100i64 {
        btree.insert(&mut pc, k, k as i32).unwrap();
    }
    let leaves = btree.leaf_count(&mut pc).unwrap();
    assert!(leaves > 2, "expected several leaves, got {leaves}");
    let first = btree.first(&mut pc, btree.root()).unwrap();
    assert!(first >= 0);
}
