use pagedb::disk::Memory;
use pagedb::internal::InternalNode;
use pagedb::node::{Node, NodeType};
use pagedb::page::{read_i64_be, write_i32_be, write_i64_be, PAGE_SIZE};
use pagedb::slot::{Either, Slot};
use pagedb::StoreError;

#[test]
fn node_round_trip() {
    let node = Node {
        t: NodeType::Leaf,
        is_root: true,
        id: 3,
        max: 8,
        next: -1,
        slots: vec![
            Slot(-5, Either::Value(5)),
            Slot(0, Either::Value(10)),
            Slot(9, Either::Value(19)),
        ],
    };
    let bytes = node.encode();
    assert_eq!(bytes.len(), PAGE_SIZE);
    let back = Node::decode(&bytes).unwrap();
    assert_eq!(back.t, NodeType::Leaf);
    assert_eq!(back.is_root, true);
    assert_eq!(back.id, 3);
    assert_eq!(back.max, 8);
    assert_eq!(back.next, -1);
    assert_eq!(back.slots, node.slots);
}

#[test]
fn internal_node_round_trip() {
    let node = Node {
        t: NodeType::Internal,
        is_root: false,
        id: 7,
        max: 8,
        next: -1,
        slots: vec![Slot(10, Either::Pointer(1)), Slot(20, Either::Pointer(2))],
    };
    let bytes = node.encode();
    let back = Node::decode(&bytes).unwrap();
    assert_eq!(back.t, NodeType::Internal);
    assert_eq!(back.slots, node.slots);
}

#[test]
fn node_header_byte_layout() {
    // The on-page format is stable across restarts: kind, root flag, id,
    // count, next and max, big-endian, then the slots.
    let node = Node {
        t: NodeType::Leaf,
        is_root: true,
        id: 3,
        max: 8,
        next: -1,
        slots: vec![Slot(1, Either::Value(2))],
    };
    let bytes = node.encode();
    assert_eq!(
        &bytes[..18],
        &[1, 1, 0, 0, 0, 3, 0, 0, 0, 1, 0xFF, 0xFF, 0xFF, 0xFF, 0, 0, 0, 8]
    );
    assert_eq!(&bytes[18..31], &[0, 0, 0, 0, 0, 0, 0, 1, 0, 0, 0, 0, 2]);
    assert!(bytes[31..].iter().all(|b| *b == 0));
}

#[test]
fn decode_rejects_garbage() {
    // Unknown kind byte.
    let zeroed = vec![0u8; PAGE_SIZE];
    assert!(Node::decode(&zeroed).is_err());
    // Wrong length.
    let short = vec![0u8; 16];
    assert!(Node::decode(&short).is_err());
    // Unsorted slots.
    let node = Node {
        t: NodeType::Leaf,
        is_root: false,
        id: 0,
        max: 8,
        next: -1,
        slots: vec![Slot(5, Either::Value(1)), Slot(5, Either::Value(2))],
    };
    let bytes = node.encode();
    assert_eq!(Node::decode(&bytes).unwrap_err(), StoreError::CorruptPage);
}

#[test]
fn slot_byte_layout() {
    let slot = Slot(0x0102030405060708, Either::Value(0x0A0B0C0D));
    let mut buf = vec![0u8; 13];
    slot.write_to(&mut buf, 0);
    assert_eq!(
        buf,
        vec![1, 2, 3, 4, 5, 6, 7, 8, 0, 0x0A, 0x0B, 0x0C, 0x0D]
    );
    assert_eq!(Slot::read_from(&buf, 0), Some(slot));

    let ptr = Slot(-1, Either::Pointer(2));
    let mut buf2 = vec![0u8; 13];
    ptr.write_to(&mut buf2, 0);
    assert_eq!(buf2[8], 1);
    assert_eq!(Slot::read_from(&buf2, 0), Some(ptr));

    // An unknown flag byte decodes to nothing.
    buf2[8] = 9;
    assert_eq!(Slot::read_from(&buf2, 0), None);
}

#[test]
fn big_endian_key_layout() {
    let mut buf = vec![0u8; 8];
    write_i64_be(&mut buf, 0, -2);
    assert_eq!(buf, vec![0xFF; 7].iter().copied().chain([0xFEu8]).collect::<Vec<u8>>());
    assert_eq!(read_i64_be(&buf, 0), -2);
}

#[test]
fn internal_pairs_stop_at_zero_sentinel() {
    let mut data = vec![0u8; PAGE_SIZE];
    // Three pair windows: the middle one carries the zero page id, which
    // terminates decoding; the live pair beyond it is not read.
    write_i32_be(&mut data, 18, 100);
    write_i32_be(&mut data, 22, 1);
    write_i32_be(&mut data, 26, 200);
    write_i32_be(&mut data, 30, 0);
    write_i32_be(&mut data, 34, 300);
    write_i32_be(&mut data, 38, 3);
    let node = InternalNode::new(&data);
    assert_eq!(node.len(), 1);
    assert_eq!(node.pairs, vec![(100, 1)]);

    let mut page = vec![0u8; PAGE_SIZE];
    node.write_data(&mut page);
    let again = InternalNode::new(&page);
    assert_eq!(again.pairs, vec![(100, 1)]);
}

#[test]
fn memory_disk_read_write() {
    let mut disk = Memory::new(2);
    let p0 = disk.allocate_page().unwrap();
    assert_eq!(p0, 0);
    let bytes = disk.read_page(p0).unwrap();
    assert_eq!(bytes, vec![0u8; PAGE_SIZE]);

    let mut page = vec![0u8; PAGE_SIZE];
    page[0] = 42;
    disk.write_page(p0, &page).unwrap();
    assert_eq!(disk.read_page(p0).unwrap()[0], 42);

    assert_eq!(disk.read_page(5), Err(StoreError::Io));
    let p1 = disk.allocate_page().unwrap();
    assert_eq!(p1, 1);
    // The backing storage is full.
    assert_eq!(disk.allocate_page(), Err(StoreError::OutOfMemory));
}
