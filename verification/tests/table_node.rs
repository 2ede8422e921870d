use pagedb::page::PAGE_SIZE;
use pagedb::table_node::{Node, RId, Slot, Tuple, TupleMeta};

#[test]
fn test_from() {
    let mut buf = vec![0u8; PAGE_SIZE];

    let tuple_a: Vec<u8> = (0..10).map(|i| (i * 2) as u8).collect();
    let tuple_b: Vec<u8> = (0..15).map(|i| (i * 3) as u8).collect();

    buf[PAGE_SIZE - 10..].copy_from_slice(&tuple_a);
    buf[PAGE_SIZE - 25..PAGE_SIZE - 10].copy_from_slice(&tuple_b);

    let table = Node {
        page: buf,
        next_page_id: 10,
        tuples_len: 2,
        deleted_tuples_len: 0,
        slots: vec![
            Slot {
                offset: (PAGE_SIZE - 10) as u32,
                len: 10,
                meta: TupleMeta { deleted: false },
            },
            Slot {
                offset: (PAGE_SIZE - 25) as u32,
                len: 15,
                meta: TupleMeta { deleted: false },
            },
        ],
    };

    let bytes = table.to_page();

    let table2 = Node::from_page(&bytes).unwrap();

    let offset = table.slots.last().unwrap().offset as usize;
    let tuples = &table2.page[offset..];
    assert_eq!(&tuples[0..15], &tuple_b[..]);
    assert_eq!(&tuples[15..], &tuple_a[..]);

    assert_eq!(table.next_page_id, table2.next_page_id);
    assert_eq!(table.tuples_len, table2.tuples_len);
    assert_eq!(table.deleted_tuples_len, table2.deleted_tuples_len);
    assert_eq!(table.slots, table2.slots);
}

#[test]
fn test_insert() {
    let mut table = Node::new(0);

    let meta = TupleMeta { deleted: false };

    let r_id_a = RId {
        page_id: 0,
        slot_id: 0,
    };
    let tuple_a: Vec<u8> = (0..10).map(|i| (i * 2) as u8).collect();

    let r_id_b = RId {
        page_id: 0,
        slot_id: 1,
    };
    let tuple_b: Vec<u8> = (0..15).map(|i| (i * 3) as u8).collect();

    table.insert(&tuple_a, &meta);
    table.insert(&tuple_b, &meta);

    let (_, have_a) = table.get(&r_id_a).unwrap();
    let (_, have_b) = table.get(&r_id_b).unwrap();
    assert_eq!(
        Tuple {
            data: tuple_a,
            r_id: r_id_a
        },
        have_a
    );
    assert_eq!(
        Tuple {
            data: tuple_b,
            r_id: r_id_b
        },
        have_b
    )
}

#[test]
fn insert_refuses_overfull_page() {
    let mut table = Node::new(-1);
    let big = vec![7u8; PAGE_SIZE];
    // A whole-page tuple cannot leave room for the header and directory.
    assert_eq!(table.insert(&big, &TupleMeta { deleted: false }), None);
    assert_eq!(table.len(), 0);

    let fits = vec![7u8; PAGE_SIZE - 64];
    assert_eq!(table.insert(&fits, &TupleMeta { deleted: false }), Some(0));
    // No room left for a second tuple of any notable size.
    assert_eq!(table.insert(&fits, &TupleMeta { deleted: false }), None);
}

#[test]
fn deleted_flag_round_trips() {
    let mut buf = vec![0u8; 9];
    let gone = Slot {
        offset: 100,
        len: 5,
        meta: TupleMeta { deleted: true },
    };
    gone.write_to(&mut buf, 0);
    assert_eq!(buf[8], 1);
    assert_eq!(Slot::read_from(&buf, 0), gone);

    let live = Slot {
        offset: 7,
        len: 3,
        meta: TupleMeta { deleted: false },
    };
    live.write_to(&mut buf, 0);
    assert_eq!(buf[8], 0);
    assert_eq!(Slot::read_from(&buf, 0), live);
}

#[test]
fn get_of_absent_slot() {
    let table = Node::new(-1);
    let rid = RId {
        page_id: 0,
        slot_id: 0,
    };
    assert!(table.get(&rid).is_none());
}
