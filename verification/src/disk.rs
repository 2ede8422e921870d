//! The in-memory disk provider: fixed-size pages addressed by id, allocated
//! sequentially from 0. No caching happens here; the page cache owns that.

use vstd::prelude::*;
use crate::page::{PageId, PAGE_SIZE};
use crate::StoreError;

verus! {

/// In-memory backing storage: page `i` lives at `pages[i]`.
pub struct Memory {
    pub pages: Vec<Vec<u8>>,
    pub capacity: usize,
}

impl Memory {
    /// Every allocated page is exactly one page buffer long, and ids fit in
    /// the signed 32-bit page id space.
    pub open spec fn inv(self) -> bool {
        &&& forall|i: int| 0 <= i < self.pages@.len() ==> (#[trigger] self.pages@[i])@.len()
            == PAGE_SIZE
        &&& self.pages@.len() <= self.capacity
        &&& self.capacity <= 0x7fff_ffff
    }

    /// The bytes of page `id`.
    pub open spec fn page_at(self, id: int) -> Seq<u8> {
        self.pages@[id]@
    }

    /// How many pages have been allocated.
    pub open spec fn page_count(self) -> int {
        self.pages@.len() as int
    }

    /// A disk with room for `capacity` pages, none allocated yet.
    pub fn new(capacity: usize) -> (r: Self)
        requires
            capacity <= 0x7fff_ffff,
        ensures
            r.inv(),
            r.page_count() == 0,
            r.capacity == capacity,
    {
        Self { pages: Vec::new(), capacity }
    }

    /// Returns a fresh, never-before-issued page id, backed by a zeroed page.
    /// Fails with `OutOfMemory` only when the backing storage is full.
    pub fn allocate_page(&mut self) -> (r: Result<PageId, StoreError>)
        requires
            old(self).inv(),
        ensures
            final(self).inv(),
            final(self).capacity == old(self).capacity,
            match r {
                Ok(id) => {
                    &&& id == old(self).page_count()
                    &&& final(self).page_count() == old(self).page_count() + 1
                    &&& forall|i: int|
                        0 <= i < old(self).page_count() ==> #[trigger] final(self).page_at(i)
                            == old(self).page_at(i)
                    &&& final(self).page_at(id as int).len() == PAGE_SIZE
                    &&& forall|j: int|
                        0 <= j < PAGE_SIZE ==> #[trigger] final(self).page_at(id as int)[j] == 0u8
                },
                Err(e) => {
                    &&& e == StoreError::OutOfMemory
                    &&& old(self).page_count() >= old(self).capacity
                    &&& *final(self) == *old(self)
                },
            },
    {
        if self.pages.len() >= self.capacity {
            return Err(StoreError::OutOfMemory);
        }
        let id = self.pages.len() as i32;
        self.pages.push(crate::page::zeroed_page());
        Ok(id)
    }

    /// Reads the whole page `id` into a fresh buffer. `Ok` exactly when `id`
    /// names an allocated page.
    pub fn read_page(&self, id: PageId) -> (r: Result<Vec<u8>, StoreError>)
        requires
            self.inv(),
        ensures
            match r {
                Ok(bytes) => {
                    &&& 0 <= id < self.page_count()
                    &&& bytes@ == self.page_at(id as int)
                    &&& bytes@.len() == PAGE_SIZE
                },
                Err(e) => {
                    &&& e == StoreError::Io
                    &&& !(0 <= id < self.page_count())
                },
            },
    {
        if id < 0 {
            return Err(StoreError::Io);
        }
        let idx = id as usize;
        if idx >= self.pages.len() {
            return Err(StoreError::Io);
        }
        let mut out: Vec<u8> = Vec::new();
        let src = &self.pages[idx];
        let mut i: usize = 0;
        while i < src.len()
            invariant
                i <= src@.len(),
                out@ =~= src@.subrange(0, i as int),
            decreases src@.len() - i,
        {
            out.push(src[i]);
            i += 1;
        }
        assert(out@ =~= src@);
        Ok(out)
    }

    /// Writes a whole page. `Ok` exactly when `id` names an allocated page.
    pub fn write_page(&mut self, id: PageId, bytes: &Vec<u8>) -> (r: Result<(), StoreError>)
        requires
            old(self).inv(),
            bytes@.len() == PAGE_SIZE,
        ensures
            final(self).inv(),
            final(self).capacity == old(self).capacity,
            final(self).page_count() == old(self).page_count(),
            match r {
                Ok(_) => {
                    &&& 0 <= id < old(self).page_count()
                    &&& final(self).page_at(id as int) == bytes@
                    &&& forall|i: int|
                        0 <= i < old(self).page_count() && i != id
                            ==> #[trigger] final(self).page_at(i) == old(self).page_at(i)
                },
                Err(e) => {
                    &&& e == StoreError::Io
                    &&& !(0 <= id < old(self).page_count())
                    &&& *final(self) == *old(self)
                },
            },
    {
        if id < 0 {
            return Err(StoreError::Io);
        }
        let idx = id as usize;
        if idx >= self.pages.len() {
            return Err(StoreError::Io);
        }
        let mut copy: Vec<u8> = Vec::new();
        let mut i: usize = 0;
        while i < bytes.len()
            invariant
                i <= bytes@.len(),
                copy@ =~= bytes@.subrange(0, i as int),
            decreases bytes@.len() - i,
        {
            copy.push(bytes[i]);
            i += 1;
        }
        assert(copy@ =~= bytes@);
        self.pages.set(idx, copy);
        Ok(())
    }
}

} // verus!
