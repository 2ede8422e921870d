//! The page cache (buffer pool): maps page ids to in-memory frames, pins
//! frames against eviction, and flushes dirty frames to the backing storage.
//!
//! The cache's view of a page is the frame bytes while the page is resident
//! and the disk bytes otherwise; a clean resident frame always agrees with
//! the disk. Victims are chosen by the LRU-K replacer, whose pin accounting
//! is kept in lock-step with the frames'.

use vstd::prelude::*;
use crate::disk::Memory;
use crate::page::{zeroed_page, PageId, NO_PAGE, PAGE_SIZE};
use crate::replacer::{AccessType, LRUKReplacer};
use crate::StoreError;

verus! {

/// Index into the cache's frame array.
pub type FrameId = usize;

/// An in-memory slot holding one page's bytes and its metadata.
pub struct Frame {
    pub page_id: PageId,
    pub dirty: bool,
    pub pin: u64,
    pub data: Vec<u8>,
}

/// The page cache over the in-memory disk provider.
pub struct PageCache {
    pub disk: Memory,
    pub frames: Vec<Frame>,
    pub page_table: Vec<Option<FrameId>>,
    pub replacer: LRUKReplacer,
}

impl PageCache {
    /// How many pages exist in backing storage.
    pub open spec fn page_count(self) -> int {
        self.disk.page_count()
    }

    /// How many frames the cache was built with.
    pub open spec fn num_frames(self) -> int {
        self.frames@.len() as int
    }

    /// Page `p` currently occupies a frame.
    pub open spec fn resident(self, p: int) -> bool {
        0 <= p < self.page_table@.len() && self.page_table@[p] is Some
    }

    /// The frame holding page `p`; meaningful under `resident(p)`.
    pub open spec fn frame_of(self, p: int) -> int {
        self.page_table@[p].unwrap() as int
    }

    /// The current bytes of page `p`: the frame bytes while resident, the
    /// disk bytes otherwise.
    pub open spec fn page_view(self, p: int) -> Seq<u8> {
        if self.resident(p) {
            self.frames@[self.frame_of(p)].data@
        } else {
            self.disk.page_at(p)
        }
    }

    /// The cache's whole current state as a map from page id to bytes.
    pub open spec fn view_map(self) -> Map<int, Seq<u8>> {
        Map::new(|p: int| 0 <= p < self.page_count(), |p: int| self.page_view(p))
    }

    /// Frame `f`'s pin count.
    pub open spec fn pin_at(self, f: int) -> u64 {
        self.frames@[f].pin
    }

    /// No frame is pinned: the state between top-level operations.
    pub open spec fn pins_zero(self) -> bool {
        forall|f: int| 0 <= f < self.frames@.len() ==> #[trigger] self.pin_at(f) == 0
    }

    /// The cache invariant.
    pub open spec fn inv(self) -> bool {
        &&& self.disk.inv()
        &&& self.page_table@.len() == self.disk.page_count()
        &&& forall|f: int|
            0 <= f < self.frames@.len() ==> (#[trigger] self.frames@[f]).data@.len() == PAGE_SIZE
        &&& forall|f: int|
            0 <= f < self.frames@.len() && (#[trigger] self.frames@[f]).page_id != NO_PAGE ==> {
                &&& 0 <= self.frames@[f].page_id < self.page_table@.len()
                &&& self.page_table@[self.frames@[f].page_id as int] == Some(f as FrameId)
            }
        &&& forall|f: int|
            0 <= f < self.frames@.len() && (#[trigger] self.frames@[f]).page_id == NO_PAGE
                ==> self.frames@[f].pin == 0 && !self.frames@[f].dirty
        &&& forall|p: int|
            0 <= p < self.page_table@.len() && (#[trigger] self.page_table@[p]) is Some ==> {
                &&& self.page_table@[p].unwrap() < self.frames@.len()
                &&& self.frames@[self.page_table@[p].unwrap() as int].page_id == p
            }
        &&& forall|f: int|
            0 <= f < self.frames@.len() && (#[trigger] self.frames@[f]).page_id != NO_PAGE
                && !self.frames@[f].dirty ==> self.frames@[f].data@ == self.disk.page_at(
                self.frames@[f].page_id as int,
            )
        &&& self.replacer.wf()
        &&& self.replacer.nodes@.len() <= self.frames@.len()
        &&& forall|f: int|
            0 <= f < self.frames@.len() ==> #[trigger] self.replacer.pin_of(f)
                == self.frames@[f].pin
        &&& forall|f: int|
            0 <= f < self.frames@.len() && (#[trigger] self.frames@[f]).page_id != NO_PAGE ==> f
                < self.replacer.nodes@.len() && self.replacer.nodes@[f] is Some
    }

    /// The two caches hold the same pages with the same current bytes.
    pub open spec fn views_preserved(a: PageCache, b: PageCache) -> bool {
        &&& b.page_count() == a.page_count()
        &&& forall|p: int| 0 <= p < a.page_count() ==> #[trigger] b.page_view(p) == a.page_view(p)
    }

    /// Frame-for-frame identical pin counts.
    pub open spec fn pins_preserved(a: PageCache, b: PageCache) -> bool {
        &&& b.num_frames() == a.num_frames()
        &&& forall|f: int| 0 <= f < a.num_frames() ==> #[trigger] b.pin_at(f) == a.pin_at(f)
    }

    /// A cache of `frames` empty frames over `disk`, with nothing resident.
    pub fn new(disk: Memory, replacer: LRUKReplacer, frames: usize) -> (r: PageCache)
        requires
            disk.inv(),
            replacer.wf(),
            replacer.nodes@.len() == 0,
        ensures
            r.inv(),
            r.pins_zero(),
            r.disk == disk,
            r.page_count() == disk.page_count(),
            r.num_frames() == frames,
            forall|p: int| 0 <= p < r.page_count() ==> #[trigger] r.page_view(p) == disk.page_at(p),
    {
        let mut fv: Vec<Frame> = Vec::new();
        let mut i: usize = 0;
        while i < frames
            invariant
                i <= frames,
                fv@.len() == i,
                forall|f: int|
                    0 <= f < i ==> (#[trigger] fv@[f]).page_id == NO_PAGE && fv@[f].pin == 0
                        && !fv@[f].dirty && fv@[f].data@.len() == PAGE_SIZE,
            decreases frames - i,
        {
            fv.push(Frame { page_id: NO_PAGE, dirty: false, pin: 0, data: zeroed_page() });
            i += 1;
        }
        let mut pt: Vec<Option<FrameId>> = Vec::new();
        let count = disk.pages.len();
        let mut j: usize = 0;
        while j < count
            invariant
                j <= count,
                pt@.len() == j,
                forall|p: int| 0 <= p < j ==> (#[trigger] pt@[p]) is None,
            decreases count - j,
        {
            pt.push(None);
            j += 1;
        }
        PageCache { disk, frames: fv, page_table: pt, replacer }
    }

    /// Finds a frame to reuse: the lowest unused frame, else the replacer's
    /// victim, flushed first if dirty and then detached. Fails with
    /// `OutOfMemory` exactly when every frame is pinned.
    #[verifier::loop_isolation(false)]
    fn obtain_frame(&mut self) -> (r: Result<FrameId, StoreError>)
        requires
            old(self).inv(),
        ensures
            final(self).inv(),
            final(self).page_count() == old(self).page_count(),
            final(self).disk.capacity == old(self).disk.capacity,
            PageCache::views_preserved(*old(self), *final(self)),
            PageCache::pins_preserved(*old(self), *final(self)),
            forall|p: int|
                0 <= p < old(self).page_count() && !old(self).resident(p) ==> !(
                #[trigger] final(self).resident(p)),
            match r {
                Ok(f) => {
                    &&& 0 <= f < final(self).num_frames()
                    &&& final(self).frames@[f as int].page_id == NO_PAGE
                    &&& final(self).frames@[f as int].pin == 0
                    &&& !final(self).frames@[f as int].dirty
                },
                Err(e) => {
                    &&& e == StoreError::OutOfMemory
                    &&& *final(self) == *old(self)
                    &&& forall|f: int|
                        0 <= f < old(self).num_frames() ==> #[trigger] old(self).pin_at(f) > 0
                },
            },
    {
        let mut i: usize = 0;
        while i < self.frames.len()
            invariant
                i <= self.frames@.len(),
                forall|f: int| 0 <= f < i ==> (#[trigger] self.frames@[f]).page_id != NO_PAGE,
            decreases self.frames@.len() - i,
        {
            if self.frames[i].page_id == NO_PAGE {
                return Ok(i);
            }
            i += 1;
        }

        let ghost pre = *self;
        match self.replacer.evict() {
            None => {
                proof {
                    assert forall|f: int| 0 <= f < self.num_frames() implies #[trigger] self.pin_at(
                        f,
                    ) > 0 by {
                        assert(self.frames@[f].page_id != NO_PAGE);
                        assert(self.replacer.nodes@[f] is Some);
                        assert(!pre.replacer.is_evictable(f));
                        assert(self.replacer.pin_of(f) == self.frames@[f].pin);
                    }
                }
                Err(StoreError::OutOfMemory)
            },
            Some(v) => {
                proof {
                    assert(pre.replacer.is_evictable(v as int));
                    assert(v < self.frames@.len());
                    assert(self.frames@[v as int].pin == self.replacer.pin_of(v as int));
                }
                let pid = self.frames[v].page_id;
                assert(pid != NO_PAGE);
                if self.frames[v].dirty {
                    let ok = self.disk.write_page(pid, &self.frames[v].data);
                    match ok {
                        Ok(_) => {},
                        Err(_) => {
                            // A resident page id always names a page, so the
                            // write-back cannot fail.
                            proof {
                                assert(false);
                            }
                            return Err(StoreError::OutOfMemory);
                        },
                    }
                }
                let fr = &mut self.frames[v];
                fr.page_id = NO_PAGE;
                fr.dirty = false;
                self.page_table.set(pid as usize, None);
                self.replacer.remove(v);
                proof {
                    assert forall|p: int| 0 <= p < pre.page_count() implies #[trigger] self.page_view(
                        p,
                    ) == pre.page_view(p) by {
                        if p == pid as int {
                            assert(!self.resident(p));
                            assert(pre.resident(p) && pre.frame_of(p) == v as int);
                        } else {
                            if pre.resident(p) {
                                assert(pre.frame_of(p) != v as int);
                                assert(self.resident(p) && self.frame_of(p) == pre.frame_of(p));
                            } else {
                                assert(!self.resident(p));
                            }
                        }
                    }
                }
                Ok(v)
            },
        }
    }

    /// Pins page `id` into a frame, reading it from disk on a miss, and
    /// records the access. `Err(Io)` exactly when `id` names no page;
    /// `Err(OutOfMemory)` exactly when a miss finds every frame pinned.
    #[verifier::loop_isolation(false)]
    pub fn fetch_page(&mut self, id: PageId) -> (r: Result<FrameId, StoreError>)
        requires
            old(self).inv(),
        ensures
            final(self).inv(),
            final(self).page_count() == old(self).page_count(),
            final(self).num_frames() == old(self).num_frames(),
            PageCache::views_preserved(*old(self), *final(self)),
            match r {
                Ok(f) => {
                    &&& 0 <= id < old(self).page_count()
                    &&& final(self).resident(id as int)
                    &&& final(self).frame_of(id as int) == f
                    &&& 0 <= f < final(self).num_frames()
                    &&& final(self).frames@[f as int].data@ == old(self).page_view(id as int)
                    &&& forall|g: int|
                        0 <= g < old(self).num_frames() && g != f ==> #[trigger] final(self).pin_at(
                            g,
                        ) == old(self).pin_at(g)
                    &&& final(self).pin_at(f as int) == if old(self).resident(id as int) {
                        if old(self).pin_at(f as int) < u64::MAX {
                            (old(self).pin_at(f as int) + 1) as u64
                        } else {
                            old(self).pin_at(f as int)
                        }
                    } else {
                        1u64
                    }
                    &&& (old(self).resident(id as int) ==> f == old(self).frame_of(id as int))
                },
                Err(e) => {
                    &&& PageCache::pins_preserved(*old(self), *final(self))
                    &&& (e == StoreError::Io || e == StoreError::OutOfMemory)
                    &&& (e == StoreError::Io <==> !(0 <= id < old(self).page_count()))
                    &&& (e == StoreError::OutOfMemory ==> !old(self).resident(id as int) && forall|
                        f: int,
                    |
                        0 <= f < old(self).num_frames() ==> #[trigger] old(self).pin_at(f) > 0)
                },
            },
    {
        if id < 0 || id as usize >= self.page_table.len() {
            return Err(StoreError::Io);
        }
        let _nf = self.frames.len();
        let idu = id as usize;
        match self.page_table[idu] {
            Some(f) => {
                self.replacer.record_access(f, AccessType::Get);
                self.replacer.pin(f);
                let fr = &mut self.frames[f];
                if fr.pin < u64::MAX {
                    fr.pin = fr.pin + 1;
                }
                Ok(f)
            },
            None => {
                let f = match self.obtain_frame() {
                    Ok(f) => f,
                    Err(e) => {
                        return Err(e);
                    },
                };
                let ghost mid = *self;
                let data = match self.disk.read_page(id) {
                    Ok(d) => d,
                    Err(_) => {
                        // The id was bounds-checked above, so the read
                        // cannot fail.
                        proof {
                            assert(false);
                        }
                        return Err(StoreError::Io);
                    },
                };
                let fr = &mut self.frames[f];
                fr.page_id = id;
                fr.dirty = false;
                fr.data = data;
                self.page_table.set(idu, Some(f));
                proof {
                    assert(!mid.resident(id as int));
                    assert forall|g: int|
                        0 <= g < self.frames@.len() && (#[trigger] self.frames@[g]).page_id
                            != NO_PAGE implies 0 <= self.frames@[g].page_id
                        < self.page_table@.len() && self.page_table@[self.frames@[g].page_id as int]
                        == Some(g as FrameId) by {
                        if g != f as int {
                            assert(mid.frames@[g] == self.frames@[g]);
                            assert(mid.page_table@[mid.frames@[g].page_id as int] == Some(
                                g as FrameId,
                            ));
                        }
                    }
                }
                self.replacer.record_access(f, AccessType::Get);
                self.replacer.pin(f);
                let fr2 = &mut self.frames[f];
                if fr2.pin < u64::MAX {
                    fr2.pin = fr2.pin + 1;
                }
                proof {
                    assert forall|p: int| 0 <= p < mid.page_count() implies #[trigger] self.page_view(
                        p,
                    ) == mid.page_view(p) by {
                        if p == id as int {
                            assert(self.resident(p) && self.frame_of(p) == f as int);
                        } else {
                            if mid.resident(p) {
                                assert(mid.frame_of(p) != f as int);
                            } else {
                                assert(!self.resident(p));
                            }
                        }
                    }
                    assert(mid.page_view(id as int) == old(self).page_view(id as int));
                    assert(self.frames@[f as int].data@ == old(self).page_view(id as int));
                    assert forall|g: int|
                        0 <= g < old(self).num_frames() && g != f as int implies #[trigger] self.pin_at(
                        g,
                    ) == old(self).pin_at(g) by {
                        assert(mid.pin_at(g) == old(self).pin_at(g));
                    }
                }
                Ok(f)
            },
        }
    }

    /// Releases one pin on page `id`; a page already unpinned, or absent,
    /// is left as it is.
    pub fn unpin_page(&mut self, id: PageId)
        requires
            old(self).inv(),
        ensures
            final(self).inv(),
            final(self).page_count() == old(self).page_count(),
            final(self).num_frames() == old(self).num_frames(),
            PageCache::views_preserved(*old(self), *final(self)),
            final(self).page_table == old(self).page_table,
            if old(self).resident(id as int) {
                &&& forall|g: int|
                    0 <= g < old(self).num_frames() && g != old(self).frame_of(id as int)
                        ==> #[trigger] final(self).pin_at(g) == old(self).pin_at(g)
                &&& final(self).pin_at(old(self).frame_of(id as int)) == if old(self).pin_at(
                    old(self).frame_of(id as int),
                ) > 0 {
                    (old(self).pin_at(old(self).frame_of(id as int)) - 1) as u64
                } else {
                    0u64
                }
            } else {
                PageCache::pins_preserved(*old(self), *final(self))
            },
    {
        if id < 0 || id as usize >= self.page_table.len() {
            return ;
        }
        let idu = id as usize;
        match self.page_table[idu] {
            Some(f) => {
                self.replacer.unpin(f);
                let fr = &mut self.frames[f];
                if fr.pin > 0 {
                    fr.pin = fr.pin - 1;
                }
            },
            None => {},
        }
    }

    /// Allocates a fresh page, zero-filled, resident and pinned once.
    /// `Err(OutOfMemory)` when every frame is pinned or the backing storage
    /// is full.
    #[verifier::loop_isolation(false)]
    pub fn new_page(&mut self) -> (r: Result<PageId, StoreError>)
        requires
            old(self).inv(),
        ensures
            final(self).inv(),
            final(self).num_frames() == old(self).num_frames(),
            match r {
                Ok(p) => {
                    &&& p == old(self).page_count()
                    &&& final(self).page_count() == old(self).page_count() + 1
                    &&& forall|q: int|
                        0 <= q < old(self).page_count() ==> #[trigger] final(self).page_view(q)
                            == old(self).page_view(q)
                    &&& final(self).page_view(p as int) == crate::node::zeros(PAGE_SIZE as nat)
                    &&& final(self).resident(p as int)
                    &&& final(self).pin_at(final(self).frame_of(p as int)) == 1
                    &&& forall|g: int|
                        0 <= g < old(self).num_frames() && g != final(self).frame_of(p as int)
                            ==> #[trigger] final(self).pin_at(g) == old(self).pin_at(g)
                },
                Err(e) => {
                    &&& e == StoreError::OutOfMemory
                    &&& final(self).page_count() == old(self).page_count()
                    &&& PageCache::views_preserved(*old(self), *final(self))
                    &&& PageCache::pins_preserved(*old(self), *final(self))
                    &&& (old(self).page_count() >= old(self).disk.capacity || forall|f: int|
                        0 <= f < old(self).num_frames() ==> #[trigger] old(self).pin_at(f) > 0)
                },
            },
    {
        let _nf = self.frames.len();
        let f = match self.obtain_frame() {
            Ok(f) => f,
            Err(e) => {
                return Err(e);
            },
        };
        let ghost mid = *self;
        let p = match self.disk.allocate_page() {
            Ok(p) => p,
            Err(e) => {
                return Err(e);
            },
        };
        self.page_table.push(Some(f));
        let fr = &mut self.frames[f];
        fr.page_id = p;
        fr.dirty = false;
        fr.data = zeroed_page();
        proof {
            assert forall|g: int|
                0 <= g < self.frames@.len() && (#[trigger] self.frames@[g]).page_id
                    != NO_PAGE implies 0 <= self.frames@[g].page_id < self.page_table@.len()
                && self.page_table@[self.frames@[g].page_id as int] == Some(g as FrameId) by {
                if g != f as int {
                    assert(mid.frames@[g] == self.frames@[g]);
                    assert(mid.page_table@[mid.frames@[g].page_id as int] == Some(g as FrameId));
                }
            }
        }
        self.replacer.record_access(f, AccessType::Get);
        self.replacer.pin(f);
        let fr2 = &mut self.frames[f];
        if fr2.pin < u64::MAX {
            fr2.pin = fr2.pin + 1;
        }
        proof {
            assert(self.frames@[f as int].data@ =~= crate::node::zeros(PAGE_SIZE as nat));
            assert(self.frames@[f as int].data@ =~= self.disk.page_at(p as int));
            assert forall|q: int| 0 <= q < mid.page_count() implies #[trigger] self.page_view(q)
                == mid.page_view(q) by {
                if mid.resident(q) {
                    assert(mid.frame_of(q) != f as int);
                    assert(self.resident(q) && self.frame_of(q) == mid.frame_of(q));
                } else {
                    assert(!self.resident(q));
                }
            }
            assert forall|q: int| 0 <= q < mid.page_count() implies #[trigger] mid.page_view(q)
                == old(self).page_view(q) by {}
            assert forall|g: int|
                0 <= g < old(self).num_frames() && g != f as int implies #[trigger] self.pin_at(g)
                == old(self).pin_at(g) by {
                assert(mid.pin_at(g) == old(self).pin_at(g));
            }
            assert(self.resident(p as int) && self.frame_of(p as int) == f as int);
            assert(self.pin_at(f as int) == 1);
        }
        Ok(p)
    }

    /// Writes page `id` back to disk if it is resident and dirty; the
    /// cache's view of every page is unchanged.
    pub fn flush_page(&mut self, id: PageId) -> (r: Result<(), StoreError>)
        requires
            old(self).inv(),
        ensures
            final(self).inv(),
            final(self).page_count() == old(self).page_count(),
            final(self).num_frames() == old(self).num_frames(),
            PageCache::views_preserved(*old(self), *final(self)),
            PageCache::pins_preserved(*old(self), *final(self)),
            r is Ok,
            0 <= id < old(self).page_count()
                ==> final(self).disk.page_at(id as int) == old(self).page_view(id as int),
            forall|p: int|
                0 <= p < old(self).page_count() && p != id
                    ==> #[trigger] final(self).disk.page_at(p) == old(self).disk.page_at(p),
    {
        if id < 0 || id as usize >= self.page_table.len() {
            return Ok(());
        }
        let idu = id as usize;
        match self.page_table[idu] {
            Some(f) => {
                if self.frames[f].dirty {
                    match self.disk.write_page(id, &self.frames[f].data) {
                        Ok(_) => {},
                        Err(_) => {
                            // A resident page id always names a page, so the
                            // write-back cannot fail.
                            proof {
                                assert(false);
                            }
                            return Ok(());
                        },
                    }
                    let fr = &mut self.frames[f];
                    fr.dirty = false;
                }
                Ok(())
            },
            None => Ok(()),
        }
    }

    /// Writes every dirty resident page back to disk: afterwards the disk
    /// holds exactly the cache's view of every page.
    #[verifier::loop_isolation(false)]
    pub fn flush_all_pages(&mut self) -> (r: Result<(), StoreError>)
        requires
            old(self).inv(),
        ensures
            final(self).inv(),
            final(self).page_count() == old(self).page_count(),
            final(self).num_frames() == old(self).num_frames(),
            PageCache::views_preserved(*old(self), *final(self)),
            PageCache::pins_preserved(*old(self), *final(self)),
            r is Ok,
            forall|p: int|
                0 <= p < old(self).page_count()
                    ==> #[trigger] final(self).disk.page_at(p) == old(self).page_view(p),
    {
        let ghost pre = *self;
        let mut f: usize = 0;
        while f < self.frames.len()
            invariant
                self.inv(),
                f <= self.frames@.len(),
                self.page_count() == pre.page_count(),
                self.num_frames() == pre.num_frames(),
                PageCache::views_preserved(pre, *self),
                PageCache::pins_preserved(pre, *self),
                self.page_table == pre.page_table,
                forall|g: int|
                    0 <= g < f ==> !(#[trigger] self.frames@[g]).dirty,
                forall|g: int|
                    0 <= g < self.frames@.len() ==> (#[trigger] self.frames@[g]).page_id
                        == pre.frames@[g].page_id && self.frames@[g].data@ == pre.frames@[g].data@
                        && self.frames@[g].pin == pre.frames@[g].pin,
                forall|p: int|
                    0 <= p < pre.page_count() && !pre.resident(p)
                        ==> #[trigger] self.disk.page_at(p) == pre.disk.page_at(p),
            decreases self.frames@.len() - f,
        {
            let dirty_here = self.frames[f].page_id != NO_PAGE && self.frames[f].dirty;
            if dirty_here {
                let pid = self.frames[f].page_id;
                match self.disk.write_page(pid, &self.frames[f].data) {
                    Ok(_) => {},
                    Err(_) => {
                        // A resident page id always names a page, so the
                        // write-back cannot fail.
                        proof {
                            assert(false);
                        }
                        return Ok(());
                    },
                }
                let fr = &mut self.frames[f];
                fr.dirty = false;
                proof {
                    assert forall|p: int| 0 <= p < pre.page_count() implies #[trigger] self.page_view(
                        p,
                    ) == pre.page_view(p) by {
                        if self.resident(p) {
                            assert(self.frame_of(p) == pre.frame_of(p));
                        }
                    }
                }
            }
            f += 1;
        }
        proof {
            assert forall|p: int| 0 <= p < pre.page_count() implies #[trigger] self.disk.page_at(p)
                == pre.page_view(p) by {
                if self.resident(p) {
                    assert(!self.frames@[self.frame_of(p)].dirty);
                }
            }
        }
        Ok(())
    }

    /// How many pages exist, as a machine integer.
    pub fn num_pages(&self) -> (r: usize)
        requires
            self.inv(),
        ensures
            r == self.page_count(),
            r <= 0x7fff_ffff,
    {
        self.disk.pages.len()
    }

    /// Tears the cache down, handing back the backing storage.
    pub fn into_disk(self) -> (d: Memory)
        ensures
            d == self.disk,
    {
        self.disk
    }

    /// Reads the whole current content of page `id` without leaving a pin
    /// behind. `Ok` exactly when `id` names a page.
    pub fn read_page(&mut self, id: PageId) -> (r: Result<Vec<u8>, StoreError>)
        requires
            old(self).inv(),
            old(self).pins_zero(),
            old(self).num_frames() >= 1,
        ensures
            final(self).inv(),
            final(self).pins_zero(),
            final(self).page_count() == old(self).page_count(),
            final(self).num_frames() == old(self).num_frames(),
            PageCache::views_preserved(*old(self), *final(self)),
            match r {
                Ok(b) => 0 <= id < old(self).page_count() && b@ == old(self).page_view(id as int),
                Err(e) => e == StoreError::Io && !(0 <= id < old(self).page_count()),
            },
    {
        let f = match self.fetch_page(id) {
            Ok(f) => f,
            Err(e) => {
                // With no pins held and at least one frame, a fetch of a
                // valid page cannot run out of frames, so only `Io` is left.
                proof {
                    if 0 <= id < old(self).page_count() {
                        assert(e != StoreError::Io);
                        assert(old(self).pin_at(0) == 0);
                        assert(false);
                    }
                }
                return Err(StoreError::Io);
            },
        };
        let src = &self.frames[f].data;
        let mut out: Vec<u8> = Vec::new();
        let mut i: usize = 0;
        while i < src.len()
            invariant
                i <= src@.len(),
                out@ =~= src@.subrange(0, i as int),
            decreases src@.len() - i,
        {
            out.push(src[i]);
            i += 1;
        }
        assert(out@ =~= self.frames@[f as int].data@);
        self.unpin_page(id);
        Ok(out)
    }

    /// Overwrites the whole content of page `id` in the cache, marking it
    /// dirty, without leaving a pin behind. `Ok` exactly when `id` names a
    /// page.
    pub fn write_page(&mut self, id: PageId, bytes: &Vec<u8>) -> (r: Result<(), StoreError>)
        requires
            old(self).inv(),
            old(self).pins_zero(),
            old(self).num_frames() >= 1,
            bytes@.len() == PAGE_SIZE,
        ensures
            final(self).inv(),
            final(self).pins_zero(),
            final(self).page_count() == old(self).page_count(),
            final(self).num_frames() == old(self).num_frames(),
            match r {
                Ok(_) => {
                    &&& 0 <= id < old(self).page_count()
                    &&& final(self).page_view(id as int) == bytes@
                    &&& forall|p: int|
                        0 <= p < old(self).page_count() && p != id
                            ==> #[trigger] final(self).page_view(p) == old(self).page_view(p)
                },
                Err(e) => {
                    &&& e == StoreError::Io
                    &&& !(0 <= id < old(self).page_count())
                    &&& PageCache::views_preserved(*old(self), *final(self))
                },
            },
    {
        let f = match self.fetch_page(id) {
            Ok(f) => f,
            Err(e) => {
                // With no pins held and at least one frame, a fetch of a
                // valid page cannot run out of frames, so only `Io` is left.
                proof {
                    if 0 <= id < old(self).page_count() {
                        assert(e != StoreError::Io);
                        assert(old(self).pin_at(0) == 0);
                        assert(false);
                    }
                }
                return Err(StoreError::Io);
            },
        };
        let ghost mid = *self;
        let mut copy: Vec<u8> = Vec::new();
        let mut i: usize = 0;
        while i < bytes.len()
            invariant
                i <= bytes@.len(),
                copy@ =~= bytes@.subrange(0, i as int),
            decreases bytes@.len() - i,
        {
            copy.push(bytes[i]);
            i += 1;
        }
        assert(copy@ =~= bytes@);
        let fr = &mut self.frames[f];
        fr.data = copy;
        fr.dirty = true;
        proof {
            assert forall|p: int|
                0 <= p < mid.page_count() && p != id implies #[trigger] self.page_view(p)
                == mid.page_view(p) by {
                if mid.resident(p) {
                    assert(mid.frame_of(p) != f as int);
                }
            }
        }
        let ghost before_unpin = *self;
        self.unpin_page(id);
        proof {
            assert forall|g: int| 0 <= g < self.frames@.len() implies #[trigger] self.pin_at(g)
                == 0 by {
                if g != f as int {
                    assert(self.pin_at(g) == before_unpin.pin_at(g));
                    assert(before_unpin.pin_at(g) == mid.pin_at(g));
                    assert(mid.pin_at(g) == old(self).pin_at(g));
                    assert(old(self).pin_at(g) == 0);
                } else {
                    assert(before_unpin.pin_at(g) == mid.pin_at(g));
                    assert(mid.pin_at(g) == 1);
                }
            }
        }
        Ok(())
    }
}

} // verus!
