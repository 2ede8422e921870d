//! The slotted table page: a header, a slot directory growing down from the
//! header, and tuple bytes growing up from the end of the page.
//!
//! ```text
//! [ next_page_id(4) | tuples_len(4) | deleted_tuples_len(4) ]
//! [ slots: tuples_len x ( offset(4) | len(4) | meta(1) ) ]
//! [ free space ]
//! [ tuple bytes, allocated from the page end downwards ]
//! ```

use vstd::prelude::*;
use crate::page::{be_i32, be_u32, i32_be, u32_be, read_i32_be, read_u32_be, write_i32_be, write_u32_be, zeroed_page, PageId, PAGE_SIZE};

verus! {

/// A row id: the page holding the tuple and the slot within it.
#[derive(PartialEq, Eq, Clone, Copy, Debug, Structural, PartialOrd, Ord, Hash)]
pub struct RId {
    pub page_id: PageId,
    pub slot_id: u32,
}

/// A stored row: its id and its bytes.
#[derive(PartialEq, Eq, Clone, Debug)]
pub struct Tuple {
    pub r_id: RId,
    pub data: Vec<u8>,
}

/// Per-tuple bookkeeping.
#[derive(PartialEq, Eq, Clone, Copy, Debug, Structural)]
pub struct TupleMeta {
    pub deleted: bool,
}

/// The page-level header length.
pub const TABLE_HEADER_SIZE: usize = 12;

/// The encoded length of one slot directory entry.
pub const TABLE_SLOT_SIZE: usize = 9;

/// One slot directory entry: where the tuple's bytes start, how long they
/// are, and its metadata. The metadata byte is 1 for a deleted tuple and 0
/// otherwise; any nonzero byte reads back as deleted, so the encoding
/// round-trips.
#[derive(PartialEq, Eq, Clone, Copy, Debug, Structural)]
pub struct Slot {
    pub offset: u32,
    pub len: u32,
    pub meta: TupleMeta,
}

impl Slot {
    /// Reads one directory entry from `buf[pos..pos + TABLE_SLOT_SIZE]`.
    pub fn read_from(buf: &Vec<u8>, pos: usize) -> (r: Slot)
        requires
            pos + TABLE_SLOT_SIZE <= buf@.len(),
        ensures
            r.offset == be_u32(buf@.subrange(pos as int, pos + 4)),
            r.len == be_u32(buf@.subrange(pos + 4, pos + 8)),
            r.meta.deleted == (buf@[pos + 8] > 0),
    {
        let _n = buf.len();
        let offset = read_u32_be(buf, pos);
        let len = read_u32_be(buf, pos + 4);
        let meta = TupleMeta { deleted: buf[pos + 8] > 0 };
        Slot { offset, len, meta }
    }

    /// Writes this directory entry at `buf[pos..pos + TABLE_SLOT_SIZE]`.
    pub fn write_to(&self, buf: &mut Vec<u8>, pos: usize)
        requires
            pos + TABLE_SLOT_SIZE <= old(buf)@.len(),
        ensures
            final(buf)@.len() == old(buf)@.len(),
            final(buf)@.subrange(pos as int, pos + 4) == u32_be(self.offset),
            final(buf)@.subrange(pos + 4, pos + 8) == u32_be(self.len),
            final(buf)@[pos + 8] == if self.meta.deleted {
                1u8
            } else {
                0u8
            },
            forall|j: int|
                0 <= j < old(buf)@.len() && !(pos <= j < pos + TABLE_SLOT_SIZE) ==> final(buf)@[j]
                    == old(buf)@[j],
    {
        let _n = buf.len();
        write_u32_be(buf, pos, self.offset);
        write_u32_be(buf, pos + 4, self.len);
        let flag: u8 = if self.meta.deleted {
            1
        } else {
            0
        };
        buf.set(pos + 8, flag);
        proof {
            assert(buf@.subrange(pos as int, pos + 4) =~= u32_be(self.offset));
            assert(buf@.subrange(pos + 4, pos + 8) =~= u32_be(self.len));
        }
    }
}

/// One table page, materialised from page bytes. The full page image is kept
/// so the tuple bytes can be read and written in place.
#[derive(Debug)]
pub struct Node {
    pub page: Vec<u8>,
    pub next_page_id: PageId,
    pub tuples_len: u32,
    pub deleted_tuples_len: u32,
    pub slots: Vec<Slot>,
}

impl Node {
    /// The counters match the slot directory and everything fits the page.
    pub open spec fn wf(self) -> bool {
        &&& self.page@.len() == PAGE_SIZE
        &&& self.tuples_len == self.slots@.len()
        &&& TABLE_HEADER_SIZE + TABLE_SLOT_SIZE * self.slots@.len() <= PAGE_SIZE
    }

    /// An empty table page linking to `next_page_id`.
    pub fn new(next_page_id: PageId) -> (r: Node)
        ensures
            r.wf(),
            r.next_page_id == next_page_id,
            r.tuples_len == 0,
            r.deleted_tuples_len == 0,
            r.slots@.len() == 0,
    {
        Node {
            page: zeroed_page(),
            next_page_id,
            tuples_len: 0,
            deleted_tuples_len: 0,
            slots: Vec::new(),
        }
    }

    /// Materialises a table page from its bytes: header fields, then
    /// `tuples_len` directory entries. `None` when the directory would run
    /// off the page.
    #[verifier::loop_isolation(false)]
    pub fn from_page(buf: &Vec<u8>) -> (r: Option<Node>)
        requires
            buf@.len() == PAGE_SIZE,
        ensures
            match r {
                Some(n) => {
                    &&& n.wf()
                    &&& n.page@ == buf@
                    &&& n.next_page_id == be_i32(buf@.subrange(0, 4))
                    &&& n.tuples_len == be_u32(buf@.subrange(4, 8))
                    &&& n.deleted_tuples_len == be_u32(buf@.subrange(8, 12))
                    &&& forall|i: int|
                        0 <= i < n.slots@.len() ==> {
                            &&& (#[trigger] n.slots@[i]).offset == be_u32(
                                buf@.subrange(
                                    TABLE_HEADER_SIZE + TABLE_SLOT_SIZE * i,
                                    TABLE_HEADER_SIZE + TABLE_SLOT_SIZE * i + 4,
                                ),
                            )
                            &&& n.slots@[i].len == be_u32(
                                buf@.subrange(
                                    TABLE_HEADER_SIZE + TABLE_SLOT_SIZE * i + 4,
                                    TABLE_HEADER_SIZE + TABLE_SLOT_SIZE * i + 8,
                                ),
                            )
                            &&& n.slots@[i].meta.deleted == (buf@[TABLE_HEADER_SIZE
                                + TABLE_SLOT_SIZE * i + 8] > 0)
                        }
                },
                None => TABLE_HEADER_SIZE + TABLE_SLOT_SIZE * be_u32(buf@.subrange(4, 8))
                    > PAGE_SIZE,
            },
    {
        let next_page_id = read_i32_be(buf, 0);
        let tuples_len = read_u32_be(buf, 4);
        let deleted_tuples_len = read_u32_be(buf, 8);

        let count = tuples_len as usize;
        if count > (PAGE_SIZE - TABLE_HEADER_SIZE) / TABLE_SLOT_SIZE {
            return None;
        }
        let mut slots: Vec<Slot> = Vec::new();
        let mut i: usize = 0;
        while i < count
            invariant
                i <= count,
                slots@.len() == i,
                forall|j: int|
                    0 <= j < i ==> {
                        &&& (#[trigger] slots@[j]).offset == be_u32(
                            buf@.subrange(
                                TABLE_HEADER_SIZE + TABLE_SLOT_SIZE * j,
                                TABLE_HEADER_SIZE + TABLE_SLOT_SIZE * j + 4,
                            ),
                        )
                        &&& slots@[j].len == be_u32(
                            buf@.subrange(
                                TABLE_HEADER_SIZE + TABLE_SLOT_SIZE * j + 4,
                                TABLE_HEADER_SIZE + TABLE_SLOT_SIZE * j + 8,
                            ),
                        )
                        &&& slots@[j].meta.deleted == (buf@[TABLE_HEADER_SIZE + TABLE_SLOT_SIZE * j
                            + 8] > 0)
                    },
            decreases count - i,
        {
            let s = Slot::read_from(buf, TABLE_HEADER_SIZE + TABLE_SLOT_SIZE * i);
            slots.push(s);
            i += 1;
        }

        let mut page: Vec<u8> = Vec::new();
        let mut j: usize = 0;
        while j < buf.len()
            invariant
                j <= buf@.len(),
                page@ =~= buf@.subrange(0, j as int),
            decreases buf@.len() - j,
        {
            page.push(buf[j]);
            j += 1;
        }
        assert(page@ =~= buf@);

        Some(Node { page, next_page_id, tuples_len, deleted_tuples_len, slots })
    }

    /// Serialises this page: header, directory, and the tuple region copied
    /// from the stored image starting at the last tuple's offset.
    #[verifier::loop_isolation(false)]
    pub fn to_page(&self) -> (r: Vec<u8>)
        requires
            self.wf(),
            self.slots@.len() > 0 ==> TABLE_HEADER_SIZE + TABLE_SLOT_SIZE * self.slots@.len()
                <= self.slots@.last().offset < PAGE_SIZE,
        ensures
            r@.len() == PAGE_SIZE,
            r@.subrange(0, 4) == i32_be(self.next_page_id),
            r@.subrange(4, 8) == u32_be(self.tuples_len),
            r@.subrange(8, 12) == u32_be(self.deleted_tuples_len),
            forall|i: int|
                0 <= i < self.slots@.len() ==> #[trigger] r@.subrange(
                    TABLE_HEADER_SIZE + TABLE_SLOT_SIZE * i,
                    TABLE_HEADER_SIZE + TABLE_SLOT_SIZE * i + 4,
                ) == u32_be(self.slots@[i].offset),
            forall|i: int|
                0 <= i < self.slots@.len() ==> #[trigger] r@.subrange(
                    TABLE_HEADER_SIZE + TABLE_SLOT_SIZE * i + 4,
                    TABLE_HEADER_SIZE + TABLE_SLOT_SIZE * i + 8,
                ) == u32_be(self.slots@[i].len),
            self.slots@.len() > 0 ==> r@.subrange(self.slots@.last().offset as int, PAGE_SIZE as int)
                == self.page@.subrange(self.slots@.last().offset as int, PAGE_SIZE as int),
    {
        let mut ret = zeroed_page();
        write_i32_be(&mut ret, 0, self.next_page_id);
        write_u32_be(&mut ret, 4, self.tuples_len);
        write_u32_be(&mut ret, 8, self.deleted_tuples_len);
        proof {
            assert(ret@.subrange(0, 4) =~= i32_be(self.next_page_id));
            assert(ret@.subrange(4, 8) =~= u32_be(self.tuples_len));
            assert(ret@.subrange(8, 12) =~= u32_be(self.deleted_tuples_len));
        }

        let count = self.slots.len();
        let mut i: usize = 0;
        while i < count
            invariant
                i <= count,
                ret@.len() == PAGE_SIZE,
                ret@.subrange(0, 4) == i32_be(self.next_page_id),
                ret@.subrange(4, 8) == u32_be(self.tuples_len),
                ret@.subrange(8, 12) == u32_be(self.deleted_tuples_len),
                forall|j: int|
                    0 <= j < i ==> #[trigger] ret@.subrange(
                        TABLE_HEADER_SIZE + TABLE_SLOT_SIZE * j,
                        TABLE_HEADER_SIZE + TABLE_SLOT_SIZE * j + 4,
                    ) == u32_be(self.slots@[j].offset),
                forall|j: int|
                    0 <= j < i ==> #[trigger] ret@.subrange(
                        TABLE_HEADER_SIZE + TABLE_SLOT_SIZE * j + 4,
                        TABLE_HEADER_SIZE + TABLE_SLOT_SIZE * j + 8,
                    ) == u32_be(self.slots@[j].len),
            decreases count - i,
        {
            let ghost pre = ret@;
            let s = self.slots[i];
            s.write_to(&mut ret, TABLE_HEADER_SIZE + TABLE_SLOT_SIZE * i);
            proof {
                assert(ret@.subrange(0, 4) =~= pre.subrange(0, 4));
                assert(ret@.subrange(4, 8) =~= pre.subrange(4, 8));
                assert(ret@.subrange(8, 12) =~= pre.subrange(8, 12));
                assert forall|j: int|
                    0 <= j < i implies #[trigger] ret@.subrange(
                    TABLE_HEADER_SIZE + TABLE_SLOT_SIZE * j,
                    TABLE_HEADER_SIZE + TABLE_SLOT_SIZE * j + 4,
                ) == u32_be(self.slots@[j].offset) by {
                    assert(ret@.subrange(
                        TABLE_HEADER_SIZE + TABLE_SLOT_SIZE * j,
                        TABLE_HEADER_SIZE + TABLE_SLOT_SIZE * j + 4,
                    ) =~= pre.subrange(
                        TABLE_HEADER_SIZE + TABLE_SLOT_SIZE * j,
                        TABLE_HEADER_SIZE + TABLE_SLOT_SIZE * j + 4,
                    ));
                }
                assert forall|j: int|
                    0 <= j < i implies #[trigger] ret@.subrange(
                    TABLE_HEADER_SIZE + TABLE_SLOT_SIZE * j + 4,
                    TABLE_HEADER_SIZE + TABLE_SLOT_SIZE * j + 8,
                ) == u32_be(self.slots@[j].len) by {
                    assert(ret@.subrange(
                        TABLE_HEADER_SIZE + TABLE_SLOT_SIZE * j + 4,
                        TABLE_HEADER_SIZE + TABLE_SLOT_SIZE * j + 8,
                    ) =~= pre.subrange(
                        TABLE_HEADER_SIZE + TABLE_SLOT_SIZE * j + 4,
                        TABLE_HEADER_SIZE + TABLE_SLOT_SIZE * j + 8,
                    ));
                }
            }
            i += 1;
        }

        if self.slots.len() > 0 {
            let offset = self.slots[self.slots.len() - 1].offset as usize;
            let ghost pre = ret@;
            let mut p: usize = offset;
            while p < PAGE_SIZE
                invariant
                    offset <= p <= PAGE_SIZE,
                    ret@.len() == PAGE_SIZE,
                    forall|q: int| offset <= q < p ==> #[trigger] ret@[q] == self.page@[q],
                    forall|q: int| 0 <= q < offset ==> #[trigger] ret@[q] == pre[q],
                decreases PAGE_SIZE - p,
            {
                ret.set(p, self.page[p]);
                p += 1;
            }
            proof {
                assert(ret@.subrange(offset as int, PAGE_SIZE as int) =~= self.page@.subrange(
                    offset as int,
                    PAGE_SIZE as int,
                ));
                assert(ret@.subrange(0, 4) =~= pre.subrange(0, 4));
                assert(ret@.subrange(4, 8) =~= pre.subrange(4, 8));
                assert(ret@.subrange(8, 12) =~= pre.subrange(8, 12));
                assert forall|j: int|
                    0 <= j < self.slots@.len() implies #[trigger] ret@.subrange(
                    TABLE_HEADER_SIZE + TABLE_SLOT_SIZE * j,
                    TABLE_HEADER_SIZE + TABLE_SLOT_SIZE * j + 4,
                ) == u32_be(self.slots@[j].offset) by {
                    assert(ret@.subrange(
                        TABLE_HEADER_SIZE + TABLE_SLOT_SIZE * j,
                        TABLE_HEADER_SIZE + TABLE_SLOT_SIZE * j + 4,
                    ) =~= pre.subrange(
                        TABLE_HEADER_SIZE + TABLE_SLOT_SIZE * j,
                        TABLE_HEADER_SIZE + TABLE_SLOT_SIZE * j + 4,
                    ));
                }
                assert forall|j: int|
                    0 <= j < self.slots@.len() implies #[trigger] ret@.subrange(
                    TABLE_HEADER_SIZE + TABLE_SLOT_SIZE * j + 4,
                    TABLE_HEADER_SIZE + TABLE_SLOT_SIZE * j + 8,
                ) == u32_be(self.slots@[j].len) by {
                    assert(ret@.subrange(
                        TABLE_HEADER_SIZE + TABLE_SLOT_SIZE * j + 4,
                        TABLE_HEADER_SIZE + TABLE_SLOT_SIZE * j + 8,
                    ) =~= pre.subrange(
                        TABLE_HEADER_SIZE + TABLE_SLOT_SIZE * j + 4,
                        TABLE_HEADER_SIZE + TABLE_SLOT_SIZE * j + 8,
                    ));
                }
            }
        }
        ret
    }

    /// How many tuples the page holds.
    pub fn len(&self) -> (r: u32)
        ensures
            r == self.tuples_len,
    {
        self.tuples_len
    }

    /// Where the next tuple's bytes would start: just below the last stored
    /// tuple, or the page end when none is stored. `None` when the bytes
    /// would not fit there: the start lies beyond the page, the tuple is too
    /// long, or it would reach down into the header and the slot directory
    /// grown by this tuple's entry.
    pub open spec fn spec_next_tuple_offset(self, data_len: int) -> Option<int> {
        let base: int = if self.slots@.len() > 0 {
            self.slots@.last().offset as int
        } else {
            PAGE_SIZE as int
        };
        let need: int = TABLE_HEADER_SIZE + TABLE_SLOT_SIZE * (self.tuples_len + 1);
        if base <= PAGE_SIZE && data_len <= base && base - data_len >= need {
            Some(base - data_len)
        } else {
            None
        }
    }

    /// `spec_next_tuple_offset`, executed.
    pub fn next_tuple_offset(&self, tuple_data: &Vec<u8>) -> (r: Option<usize>)
        requires
            self.wf(),
        ensures
            match self.spec_next_tuple_offset(tuple_data@.len() as int) {
                Some(o) => r == Some(o as usize),
                None => r is None,
            },
    {
        let offset: usize = if self.slots.len() > 0 {
            self.slots[self.slots.len() - 1].offset as usize
        } else {
            PAGE_SIZE
        };
        if offset > PAGE_SIZE {
            return None;
        }
        if tuple_data.len() > offset {
            return None;
        }
        let tuple_offset = offset - tuple_data.len();

        // The tuple may not reach the header or the slot directory, grown by
        // the entry this tuple will take.
        let size = TABLE_HEADER_SIZE + TABLE_SLOT_SIZE * (self.tuples_len as usize + 1);
        if tuple_offset < size {
            return None;
        }
        Some(tuple_offset)
    }

    /// Stores a tuple's bytes and directory entry; returns its slot id
    /// exactly when `spec_next_tuple_offset` finds room, leaving every page
    /// byte outside the new tuple's window as it was.
    pub fn insert(&mut self, tuple_data: &Vec<u8>, meta: &TupleMeta) -> (r: Option<u32>)
        requires
            old(self).wf(),
        ensures
            final(self).wf(),
            final(self).next_page_id == old(self).next_page_id,
            final(self).deleted_tuples_len == old(self).deleted_tuples_len,
            match r {
                Some(slot_id) => {
                    &&& old(self).spec_next_tuple_offset(tuple_data@.len() as int) is Some
                    &&& ({
                        let off = old(self).spec_next_tuple_offset(
                            tuple_data@.len() as int,
                        ).unwrap();
                        &&& slot_id == old(self).tuples_len
                        &&& final(self).tuples_len == old(self).tuples_len + 1
                        &&& final(self).slots@ == old(self).slots@.push(
                            Slot {
                                offset: off as u32,
                                len: tuple_data@.len() as u32,
                                meta: *meta,
                            },
                        )
                        &&& final(self).page@.subrange(off as int, off + tuple_data@.len())
                            == tuple_data@
                        &&& forall|j: int|
                            0 <= j < PAGE_SIZE && !(off <= j < off + tuple_data@.len())
                                ==> #[trigger] final(self).page@[j] == old(self).page@[j]
                    })
                },
                None => old(self).spec_next_tuple_offset(tuple_data@.len() as int) is None
                    && *final(self) == *old(self),
            },
    {
        let offset = match self.next_tuple_offset(tuple_data) {
            Some(o) => o,
            None => {
                return None;
            },
        };
        let slot_id = self.tuples_len;
        self.slots.push(
            Slot { offset: offset as u32, len: tuple_data.len() as u32, meta: *meta },
        );
        self.tuples_len = self.tuples_len + 1;

        let mut q: usize = 0;
        let ghost pre = self.page@;
        let ghost snap = *self;
        while q < tuple_data.len()
            invariant
                q <= tuple_data@.len(),
                offset + tuple_data@.len() <= PAGE_SIZE,
                self.page@.len() == PAGE_SIZE,
                self.slots == snap.slots,
                self.tuples_len == snap.tuples_len,
                self.next_page_id == snap.next_page_id,
                self.deleted_tuples_len == snap.deleted_tuples_len,
                forall|j: int|
                    0 <= j < PAGE_SIZE && !(offset <= j < offset + q) ==> #[trigger] self.page@[j]
                        == pre[j],
                forall|j: int|
                    0 <= j < q ==> #[trigger] self.page@[offset + j] == tuple_data@[j],
            decreases tuple_data@.len() - q,
        {
            self.page.set(offset + q, tuple_data[q]);
            q += 1;
        }
        proof {
            assert forall|k: int|
                0 <= k < tuple_data@.len() implies #[trigger] self.page@.subrange(
                offset as int,
                offset + tuple_data@.len(),
            )[k] == tuple_data@[k] by {
                assert(self.page@[offset + k] == tuple_data@[k]);
            }
            assert(self.page@.subrange(offset as int, offset + tuple_data@.len())
                =~= tuple_data@);
        }
        Some(slot_id)
    }

    /// The tuple stored under `r_id`, with its metadata; `None` when the
    /// slot id names no slot or the entry runs off the page.
    pub fn get(&self, r_id: &RId) -> (r: Option<(TupleMeta, Tuple)>)
        requires
            self.wf(),
        ensures
            match r {
                Some((meta, tuple)) => {
                    &&& (r_id.slot_id as int) < self.slots@.len()
                    &&& meta == self.slots@[r_id.slot_id as int].meta
                    &&& tuple.r_id == *r_id
                    &&& tuple.data@ == self.page@.subrange(
                        self.slots@[r_id.slot_id as int].offset as int,
                        self.slots@[r_id.slot_id as int].offset + self.slots@[r_id.slot_id
                            as int].len,
                    )
                },
                None => (r_id.slot_id as int) >= self.slots@.len() || self.slots@[r_id.slot_id
                    as int].offset + self.slots@[r_id.slot_id as int].len > PAGE_SIZE,
            },
    {
        let slot_id = r_id.slot_id;
        if slot_id as usize >= self.slots.len() {
            return None;
        }
        let slot = self.slots[slot_id as usize];
        let offset = slot.offset as usize;
        let len = slot.len as usize;
        if offset > PAGE_SIZE || len > PAGE_SIZE - offset {
            return None;
        }
        let mut data: Vec<u8> = Vec::new();
        let mut q: usize = 0;
        while q < len
            invariant
                q <= len,
                offset + len <= PAGE_SIZE,
                self.page@.len() == PAGE_SIZE,
                data@ =~= self.page@.subrange(offset as int, offset + q),
            decreases len - q,
        {
            data.push(self.page[offset + q]);
            q += 1;
        }
        Some((slot.meta, Tuple { r_id: *r_id, data }))
    }
}

} // verus!
