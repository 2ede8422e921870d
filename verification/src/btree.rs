//! The page-oriented B+Tree: point lookup, ordered range scan, full scan,
//! insert with preemptive splits, and tombstone-free delete at the leaf.
//!
//! Every read operation's result is pinned down by a specification-level
//! interpreter over the page cache's view (the map from page id to current
//! bytes). The interpreters carry a fuel argument: a descent or chain walk
//! longer than the number of pages can only mean a cycle, which is reported
//! as `CorruptPage`.

use vstd::prelude::*;
use crate::node::{spec_decode, spec_find_child, spec_slots_get, Node, NodeType, NodeView, MAX_SLOTS};
use crate::page::{PageId, NO_PAGE};
use crate::page_cache::PageCache;
use crate::slot::{Either, Slot};
use crate::StoreError;

verus! {

/// The ordered key-to-value index: the root page id (`NO_PAGE` while empty)
/// and the slot capacity its nodes are built with.
pub struct BTree {
    pub root: PageId,
    pub max: u32,
}

/// What a point lookup starting at `ptr` returns: descend through the first
/// separator covering the key, and look the key up in the leaf.
pub open spec fn spec_get(m: Map<int, Seq<u8>>, ptr: int, key: i64, fuel: nat) -> Result<
    Option<Slot>,
    StoreError,
>
    decreases fuel,
{
    if fuel == 0 {
        Err(StoreError::CorruptPage)
    } else if !m.contains_key(ptr) {
        Err(StoreError::Io)
    } else {
        match spec_decode(m[ptr]) {
            None => Err(StoreError::CorruptPage),
            Some(n) => match spec_find_child(n, key) {
                Some(c) => spec_get(m, c as int, key, (fuel - 1) as nat),
                None => if n.t is Leaf {
                    Ok(spec_slots_get(n.slots, key))
                } else {
                    Ok(None)
                },
            },
        }
    }
}

/// `spec_get` from the root, with the empty tree returning nothing.
pub open spec fn spec_tree_get(m: Map<int, Seq<u8>>, root: PageId, key: i64, fuel: nat) -> Result<
    Option<Slot>,
    StoreError,
> {
    if root == NO_PAGE {
        Ok(None)
    } else {
        spec_get(m, root as int, key, fuel)
    }
}

/// The `(key, value)` pairs a run of leaf slots stands for.
pub open spec fn slots_entries(s: Seq<Slot>) -> Seq<(i64, i32)> {
    s.map_values(|sl: Slot| (sl.0, sl.1->Value_0))
}

/// What a full scan starting at `ptr` returns: descend along first children
/// to the leftmost leaf, then walk the sibling chain, concatenating each leaf's
/// entries.
pub open spec fn spec_scan(m: Map<int, Seq<u8>>, ptr: int, fuel: nat) -> Result<
    Seq<Slot>,
    StoreError,
>
    decreases fuel,
{
    if fuel == 0 {
        Err(StoreError::CorruptPage)
    } else if !m.contains_key(ptr) {
        Err(StoreError::Io)
    } else {
        match spec_decode(m[ptr]) {
            None => Err(StoreError::CorruptPage),
            Some(n) => if n.t is Leaf {
                if n.next == NO_PAGE {
                    Ok(n.slots)
                } else {
                    match spec_scan(m, n.next as int, (fuel - 1) as nat) {
                        Ok(rest) => Ok(n.slots + rest),
                        Err(e) => Err(e),
                    }
                }
            } else {
                if n.slots.len() == 0 {
                    Err(StoreError::CorruptPage)
                } else {
                    spec_scan(m, n.slots[0].1->Pointer_0 as int, (fuel - 1) as nat)
                }
            },
        }
    }
}

/// `spec_scan` from the root; the empty tree scans to nothing.
pub open spec fn spec_tree_scan(m: Map<int, Seq<u8>>, root: PageId, fuel: nat) -> Result<
    Seq<Slot>,
    StoreError,
> {
    if root == NO_PAGE {
        Ok(Seq::empty())
    } else {
        spec_scan(m, root as int, fuel)
    }
}

/// The slots among `s` whose keys lie in `[from, to]`, in order.
pub open spec fn slots_in_range(s: Seq<Slot>, from: i64, to: i64) -> Seq<Slot>
    decreases s.len(),
{
    if s.len() == 0 {
        Seq::empty()
    } else {
        slots_in_range(s.drop_last(), from, to) + (if from <= s.last().0 <= to {
            seq![s.last()]
        } else {
            Seq::empty()
        })
    }
}

pub proof fn lemma_slots_in_range_bounds(s: Seq<Slot>, from: i64, to: i64)
    ensures
        forall|j: int|
            0 <= j < slots_in_range(s, from, to).len() ==> from <= (#[trigger] slots_in_range(
                s,
                from,
                to,
            )[j]).0 <= to,
    decreases s.len(),
{
    if s.len() > 0 {
        lemma_slots_in_range_bounds(s.drop_last(), from, to);
    }
}

/// The page id of the leaf whose key range covers `key`, found by descent;
/// `None` when an internal node has no separator covering the key.
pub open spec fn spec_get_ptr(m: Map<int, Seq<u8>>, ptr: int, key: i64, fuel: nat) -> Result<
    Option<PageId>,
    StoreError,
>
    decreases fuel,
{
    if fuel == 0 {
        Err(StoreError::CorruptPage)
    } else if !m.contains_key(ptr) {
        Err(StoreError::Io)
    } else {
        match spec_decode(m[ptr]) {
            None => Err(StoreError::CorruptPage),
            Some(n) => match spec_find_child(n, key) {
                Some(c) => spec_get_ptr(m, c as int, key, (fuel - 1) as nat),
                None => if n.t is Leaf {
                    Ok(Some(ptr as PageId))
                } else {
                    Ok(None)
                },
            },
        }
    }
}

/// What the leaf-chain walk of a range query returns from `ptr` on: each
/// leaf's slots within the bounds, stopping once a leaf holds a key above
/// `to` (everything to its right is larger still) or the chain ends.
pub open spec fn spec_range_walk(
    m: Map<int, Seq<u8>>,
    ptr: int,
    from: i64,
    to: i64,
    fuel: nat,
) -> Result<Seq<Slot>, StoreError>
    decreases fuel,
{
    if fuel == 0 {
        Err(StoreError::CorruptPage)
    } else if !m.contains_key(ptr) {
        Err(StoreError::Io)
    } else {
        match spec_decode(m[ptr]) {
            None => Err(StoreError::CorruptPage),
            Some(n) => if !(n.t is Leaf) {
                Err(StoreError::CorruptPage)
            } else {
                let taken = slots_in_range(n.slots, from, to);
                if n.next == NO_PAGE || (n.slots.len() > 0 && n.slots.last().0 > to) {
                    Ok(taken)
                } else {
                    match spec_range_walk(m, n.next as int, from, to, (fuel - 1) as nat) {
                        Ok(rest) => Ok(taken + rest),
                        Err(e) => Err(e),
                    }
                }
            },
        }
    }
}

/// What a delete returns and leaves behind: the page map with the covering
/// leaf rewritten without `key`, and whether a slot was removed.
pub open spec fn spec_delete(m: Map<int, Seq<u8>>, ptr: int, key: i64, fuel: nat) -> Result<
    (Map<int, Seq<u8>>, bool),
    StoreError,
>
    decreases fuel,
{
    if fuel == 0 {
        Err(StoreError::CorruptPage)
    } else if !m.contains_key(ptr) {
        Err(StoreError::Io)
    } else {
        match spec_decode(m[ptr]) {
            None => Err(StoreError::CorruptPage),
            Some(n) => match spec_find_child(n, key) {
                Some(c) => spec_delete(m, c as int, key, (fuel - 1) as nat),
                None => if n.t is Leaf {
                    if spec_slots_get(n.slots, key) is Some {
                        Ok(
                            (
                                m.insert(
                                    ptr,
                                    crate::node::node_bytes(
                                        NodeView {
                                            slots: crate::node::spec_remove_key(n.slots, key),
                                            ..n
                                        },
                                    ),
                                ),
                                true,
                            ),
                        )
                    } else {
                        Ok((m, false))
                    }
                } else {
                    Ok((m, false))
                },
            },
        }
    }
}

impl BTree {
    /// An empty tree whose nodes will hold at most `max` slots.
    pub fn new(max: u32) -> (r: BTree)
        requires
            3 <= max <= MAX_SLOTS,
        ensures
            r.root == NO_PAGE,
            r.max == max,
    {
        BTree { root: NO_PAGE, max }
    }

    /// The root page id; `NO_PAGE` while the tree is empty.
    pub fn root(&self) -> (r: PageId)
        ensures
            r == self.root,
    {
        self.root
    }

    fn get_rec(&self, pc: &mut PageCache, ptr: PageId, key: i64, fuel: usize) -> (r: Result<
        Option<Slot>,
        StoreError,
    >)
        requires
            old(pc).inv(),
            old(pc).pins_zero(),
            old(pc).num_frames() >= 1,
        ensures
            final(pc).inv(),
            final(pc).pins_zero(),
            final(pc).num_frames() == old(pc).num_frames(),
            PageCache::views_preserved(*old(pc), *final(pc)),
            r == spec_get(old(pc).view_map(), ptr as int, key, fuel as nat),
        decreases fuel,
    {
        let ghost m = old(pc).view_map();
        if fuel == 0 {
            return Err(StoreError::CorruptPage);
        }
        let bytes = match pc.read_page(ptr) {
            Ok(b) => b,
            Err(e) => {
                proof {
                    assert(!m.contains_key(ptr as int));
                }
                return Err(e);
            },
        };
        proof {
            assert(m.contains_key(ptr as int) && m[ptr as int] == bytes@);
        }
        let node = match Node::decode(&bytes) {
            Ok(n) => n,
            Err(e) => {
                return Err(e);
            },
        };
        match node.find_child(key) {
            Some(c) => {
                let ghost mid = *pc;
                let r = self.get_rec(pc, c, key, fuel - 1);
                proof {
                    assert(mid.view_map() =~= m);
                }
                r
            },
            None => {
                if node.t == NodeType::Leaf {
                    Ok(node.get(key))
                } else {
                    Ok(None)
                }
            },
        }
    }

    /// Point lookup: the slot holding `key`, if the tree has it.
    pub fn get(&self, pc: &mut PageCache, key: i64) -> (r: Result<Option<Slot>, StoreError>)
        requires
            old(pc).inv(),
            old(pc).pins_zero(),
            old(pc).num_frames() >= 1,
        ensures
            final(pc).inv(),
            final(pc).pins_zero(),
            final(pc).num_frames() == old(pc).num_frames(),
            PageCache::views_preserved(*old(pc), *final(pc)),
            r == spec_tree_get(
                old(pc).view_map(),
                self.root,
                key,
                (old(pc).page_count() + 1) as nat,
            ),
    {
        if self.root == NO_PAGE {
            return Ok(None);
        }
        let fuel = pc.num_pages() + 1;
        self.get_rec(pc, self.root, key, fuel)
    }

    fn scan_rec(
        &self,
        pc: &mut PageCache,
        ptr: PageId,
        acc: &mut Vec<(i64, i32)>,
        fuel: usize,
    ) -> (r: Result<(), StoreError>)
        requires
            old(pc).inv(),
            old(pc).pins_zero(),
            old(pc).num_frames() >= 1,
        ensures
            final(pc).inv(),
            final(pc).pins_zero(),
            final(pc).num_frames() == old(pc).num_frames(),
            PageCache::views_preserved(*old(pc), *final(pc)),
            match spec_scan(old(pc).view_map(), ptr as int, fuel as nat) {
                Ok(s) => r is Ok && final(acc)@ == old(acc)@ + slots_entries(s),
                Err(e) => r == Err::<(), StoreError>(e),
            },
        decreases fuel,
    {
        let ghost m = old(pc).view_map();
        if fuel == 0 {
            return Err(StoreError::CorruptPage);
        }
        let bytes = match pc.read_page(ptr) {
            Ok(b) => b,
            Err(e) => {
                proof {
                    assert(!m.contains_key(ptr as int));
                }
                return Err(e);
            },
        };
        proof {
            assert(m.contains_key(ptr as int) && m[ptr as int] == bytes@);
        }
        let node = match Node::decode(&bytes) {
            Ok(n) => n,
            Err(e) => {
                return Err(e);
            },
        };
        if node.t == NodeType::Internal {
            match node.first() {
                Some(sl) => {
                    match sl.1 {
                        Either::Pointer(c) => {
                            let ghost mid = *pc;
                            let r = self.scan_rec(pc, c, acc, fuel - 1);
                            proof {
                                assert(mid.view_map() =~= m);
                            }
                            r
                        },
                        Either::Value(_) => {
                            proof {
                                assert(node.slots@[0].1 is Pointer);
                            }
                            Err(StoreError::CorruptPage)
                        },
                    }
                },
                None => Err(StoreError::CorruptPage),
            }
        } else {
            let ghost entered = acc@;
            let mut i: usize = 0;
            while i < node.slots.len()
                invariant
                    i <= node.slots@.len(),
                    crate::node::slots_homogeneous(NodeType::Leaf, node.slots@),
                    acc@ == entered + slots_entries(node.slots@.subrange(0, i as int)),
                decreases node.slots@.len() - i,
            {
                let sl = node.slots[i];
                match sl.1 {
                    Either::Value(v) => {
                        acc.push((sl.0, v));
                    },
                    Either::Pointer(_) => {
                        proof {
                            assert(node.slots@[i as int].1 is Value);
                        }
                    },
                }
                proof {
                    assert(node.slots@.subrange(0, i + 1).drop_last() =~= node.slots@.subrange(
                        0,
                        i as int,
                    ));
                    assert(acc@ =~= entered + slots_entries(node.slots@.subrange(0, i + 1)));
                }
                i += 1;
            }
            proof {
                assert(node.slots@.subrange(0, node.slots@.len() as int) =~= node.slots@);
            }
            if node.next == NO_PAGE {
                return Ok(());
            }
            let ghost mid = *pc;
            let r = self.scan_rec(pc, node.next, acc, fuel - 1);
            proof {
                assert(mid.view_map() =~= m);
                if spec_scan(m, node@.next as int, (fuel - 1) as nat) is Ok {
                    let rest = spec_scan(m, node@.next as int, (fuel - 1) as nat)->Ok_0;
                    assert(acc@ =~= entered + slots_entries(node.slots@ + rest));
                }
            }
            r
        }
    }

    /// Every entry in the tree, in leaf-chain order: ascending by key for a
    /// well-formed tree.
    pub fn scan(&self, pc: &mut PageCache) -> (r: Result<Vec<(i64, i32)>, StoreError>)
        requires
            old(pc).inv(),
            old(pc).pins_zero(),
            old(pc).num_frames() >= 1,
        ensures
            final(pc).inv(),
            final(pc).pins_zero(),
            final(pc).num_frames() == old(pc).num_frames(),
            PageCache::views_preserved(*old(pc), *final(pc)),
            match spec_tree_scan(old(pc).view_map(), self.root, (old(pc).page_count() + 1) as nat) {
                Ok(s) => r is Ok && r->Ok_0@ == slots_entries(s),
                Err(e) => r == Err::<Vec<(i64, i32)>, StoreError>(e),
            },
            r is Ok && (self.root != NO_PAGE ==> chain_ascending(
                old(pc).view_map(),
                self.root as int,
                (old(pc).page_count() + 1) as nat,
            )) ==> forall|a: int, b: int|
                0 <= a < b < r->Ok_0@.len() ==> (#[trigger] r->Ok_0@[a]).0 < (
                #[trigger] r->Ok_0@[b]).0,
    {
        let mut ret: Vec<(i64, i32)> = Vec::new();
        if self.root == NO_PAGE {
            proof {
                assert(slots_entries(Seq::empty()) =~= Seq::<(i64, i32)>::empty());
            }
            return Ok(ret);
        }
        let fuel = pc.num_pages() + 1;
        match self.scan_rec(pc, self.root, &mut ret, fuel) {
            Ok(_) => {
                proof {
                    let m = old(pc).view_map();
                    let s = spec_scan(m, self.root as int, fuel as nat)->Ok_0;
                    assert(ret@ =~= slots_entries(s));
                    if chain_ascending(m, self.root as int, fuel as nat) {
                        lemma_scan_sorted(m, self.root as int, fuel as nat);
                        assert forall|a: int, b: int|
                            0 <= a < b < ret@.len() implies (#[trigger] ret@[a]).0 < (
                        #[trigger] ret@[b]).0 by {
                            assert(ret@[a] == (s[a].0, s[a].1->Value_0));
                            assert(ret@[b] == (s[b].0, s[b].1->Value_0));
                        }
                    }
                }
                Ok(ret)
            },
            Err(e) => Err(e),
        }
    }

    fn get_ptr(&self, pc: &mut PageCache, ptr: PageId, key: i64, fuel: usize) -> (r: Result<
        Option<PageId>,
        StoreError,
    >)
        requires
            old(pc).inv(),
            old(pc).pins_zero(),
            old(pc).num_frames() >= 1,
        ensures
            final(pc).inv(),
            final(pc).pins_zero(),
            final(pc).num_frames() == old(pc).num_frames(),
            PageCache::views_preserved(*old(pc), *final(pc)),
            r == spec_get_ptr(old(pc).view_map(), ptr as int, key, fuel as nat),
        decreases fuel,
    {
        let ghost m = old(pc).view_map();
        if fuel == 0 {
            return Err(StoreError::CorruptPage);
        }
        let bytes = match pc.read_page(ptr) {
            Ok(b) => b,
            Err(e) => {
                proof {
                    assert(!m.contains_key(ptr as int));
                }
                return Err(e);
            },
        };
        proof {
            assert(m.contains_key(ptr as int) && m[ptr as int] == bytes@);
        }
        let node = match Node::decode(&bytes) {
            Ok(n) => n,
            Err(e) => {
                return Err(e);
            },
        };
        match node.find_child(key) {
            Some(c) => {
                let ghost mid = *pc;
                let r = self.get_ptr(pc, c, key, fuel - 1);
                proof {
                    assert(mid.view_map() =~= m);
                }
                r
            },
            None => {
                if node.t == NodeType::Leaf {
                    Ok(Some(ptr))
                } else {
                    Ok(None)
                }
            },
        }
    }

    fn range_rec(
        &self,
        pc: &mut PageCache,
        ptr: PageId,
        acc: &mut Vec<(i64, i32)>,
        from: i64,
        to: i64,
        fuel: usize,
    ) -> (r: Result<(), StoreError>)
        requires
            old(pc).inv(),
            old(pc).pins_zero(),
            old(pc).num_frames() >= 1,
        ensures
            final(pc).inv(),
            final(pc).pins_zero(),
            final(pc).num_frames() == old(pc).num_frames(),
            PageCache::views_preserved(*old(pc), *final(pc)),
            match spec_range_walk(old(pc).view_map(), ptr as int, from, to, fuel as nat) {
                Ok(s) => r is Ok && final(acc)@ == old(acc)@ + slots_entries(s),
                Err(e) => r == Err::<(), StoreError>(e),
            },
        decreases fuel,
    {
        let ghost m = old(pc).view_map();
        if fuel == 0 {
            return Err(StoreError::CorruptPage);
        }
        let bytes = match pc.read_page(ptr) {
            Ok(b) => b,
            Err(e) => {
                proof {
                    assert(!m.contains_key(ptr as int));
                }
                return Err(e);
            },
        };
        proof {
            assert(m.contains_key(ptr as int) && m[ptr as int] == bytes@);
        }
        let node = match Node::decode(&bytes) {
            Ok(n) => n,
            Err(e) => {
                return Err(e);
            },
        };
        if node.t == NodeType::Internal {
            return Err(StoreError::CorruptPage);
        }
        let ghost entered = acc@;
        let ghost taken = slots_in_range(node.slots@, from, to);
        let mut i: usize = 0;
        while i < node.slots.len()
            invariant
                i <= node.slots@.len(),
                crate::node::slots_homogeneous(NodeType::Leaf, node.slots@),
                acc@ == entered + slots_entries(
                    slots_in_range(node.slots@.subrange(0, i as int), from, to),
                ),
            decreases node.slots@.len() - i,
        {
            let sl = node.slots[i];
            if from <= sl.0 && sl.0 <= to {
                match sl.1 {
                    Either::Value(v) => {
                        acc.push((sl.0, v));
                    },
                    Either::Pointer(_) => {
                        proof {
                            assert(node.slots@[i as int].1 is Value);
                        }
                    },
                }
            }
            proof {
                assert(node.slots@.subrange(0, i + 1).drop_last() =~= node.slots@.subrange(
                    0,
                    i as int,
                ));
                assert(acc@ =~= entered + slots_entries(
                    slots_in_range(node.slots@.subrange(0, i + 1), from, to),
                ));
            }
            i += 1;
        }
        proof {
            assert(node.slots@.subrange(0, node.slots@.len() as int) =~= node.slots@);
        }
        if node.next == NO_PAGE {
            return Ok(());
        }
        if node.slots.len() > 0 && node.slots[node.slots.len() - 1].0 > to {
            // Everything to the right of this leaf is larger still.
            return Ok(());
        }
        let ghost mid = *pc;
        let r = self.range_rec(pc, node.next, acc, from, to, fuel - 1);
        proof {
            assert(mid.view_map() =~= m);
            if spec_range_walk(m, node@.next as int, from, to, (fuel - 1) as nat) is Ok {
                let rest = spec_range_walk(m, node@.next as int, from, to, (fuel - 1) as nat)->Ok_0;
                assert(acc@ =~= entered + slots_entries(taken + rest));
            }
        }
        r
    }

    /// Every entry with key in `[from, to]`, inclusive on both bounds, in
    /// leaf-chain order starting at the leaf covering `from`. Every returned
    /// key lies within the bounds.
    pub fn range(&self, pc: &mut PageCache, from: i64, to: i64) -> (r: Result<
        Vec<(i64, i32)>,
        StoreError,
    >)
        requires
            old(pc).inv(),
            old(pc).pins_zero(),
            old(pc).num_frames() >= 1,
        ensures
            final(pc).inv(),
            final(pc).pins_zero(),
            final(pc).num_frames() == old(pc).num_frames(),
            PageCache::views_preserved(*old(pc), *final(pc)),
            self.root == NO_PAGE ==> r is Ok && r->Ok_0@.len() == 0,
            from > to ==> r is Ok && r->Ok_0@.len() == 0,
            (self.root != NO_PAGE && from <= to) ==> match spec_get_ptr(
                old(pc).view_map(),
                self.root as int,
                from,
                (old(pc).page_count() + 1) as nat,
            ) {
                Ok(Some(leaf)) => match spec_range_walk(
                    old(pc).view_map(),
                    leaf as int,
                    from,
                    to,
                    (old(pc).page_count() + 1) as nat,
                ) {
                    Ok(s) => r is Ok && r->Ok_0@ == slots_entries(s),
                    Err(e) => r == Err::<Vec<(i64, i32)>, StoreError>(e),
                },
                Ok(None) => r is Ok && r->Ok_0@.len() == 0,
                Err(e) => r == Err::<Vec<(i64, i32)>, StoreError>(e),
            },
            r is Ok ==> forall|j: int|
                0 <= j < r->Ok_0@.len() ==> from <= (#[trigger] r->Ok_0@[j]).0 <= to,
    {
        let mut ret: Vec<(i64, i32)> = Vec::new();
        if self.root == NO_PAGE || from > to {
            return Ok(ret);
        }
        let fuel = pc.num_pages() + 1;
        let ghost m = old(pc).view_map();
        let cur = match self.get_ptr(pc, self.root, from, fuel) {
            Ok(Some(c)) => c,
            Ok(None) => {
                return Ok(ret);
            },
            Err(e) => {
                return Err(e);
            },
        };
        let ghost mid = *pc;
        match self.range_rec(pc, cur, &mut ret, from, to, fuel) {
            Ok(_) => {
                proof {
                    assert(mid.view_map() =~= m);
                    let s = spec_range_walk(m, cur as int, from, to, fuel as nat)->Ok_0;
                    assert(ret@ =~= slots_entries(s));
                    lemma_slots_in_range_bounds_walk(m, cur as int, from, to, fuel as nat);
                }
                Ok(ret)
            },
            Err(e) => {
                proof {
                    assert(mid.view_map() =~= m);
                }
                Err(e)
            },
        }
    }

    fn delete_rec(&self, pc: &mut PageCache, ptr: PageId, key: i64, fuel: usize) -> (r: Result<
        bool,
        StoreError,
    >)
        requires
            old(pc).inv(),
            old(pc).pins_zero(),
            old(pc).num_frames() >= 1,
        ensures
            final(pc).inv(),
            final(pc).pins_zero(),
            final(pc).num_frames() == old(pc).num_frames(),
            final(pc).page_count() == old(pc).page_count(),
            match spec_delete(old(pc).view_map(), ptr as int, key, fuel as nat) {
                Ok((m2, b)) => r == Ok::<bool, StoreError>(b) && final(pc).view_map() == m2,
                Err(e) => r == Err::<bool, StoreError>(e) && PageCache::views_preserved(
                    *old(pc),
                    *final(pc),
                ),
            },
        decreases fuel,
    {
        let ghost m = old(pc).view_map();
        if fuel == 0 {
            return Err(StoreError::CorruptPage);
        }
        let bytes = match pc.read_page(ptr) {
            Ok(b) => b,
            Err(e) => {
                proof {
                    assert(!m.contains_key(ptr as int));
                }
                return Err(e);
            },
        };
        proof {
            assert(m.contains_key(ptr as int) && m[ptr as int] == bytes@);
        }
        let mut node = match Node::decode(&bytes) {
            Ok(n) => n,
            Err(e) => {
                return Err(e);
            },
        };
        match node.find_child(key) {
            Some(c) => {
                let ghost mid = *pc;
                let r = self.delete_rec(pc, c, key, fuel - 1);
                proof {
                    assert(mid.view_map() =~= m);
                }
                r
            },
            None => {
                if node.t == NodeType::Leaf {
                    let rem = node.remove(key);
                    if rem {
                        let out = node.encode();
                        let ghost mid = *pc;
                        match pc.write_page(ptr, &out) {
                            Ok(_) => {
                                proof {
                                    assert(mid.view_map() =~= m);
                                    let (m2, b) = spec_delete(m, ptr as int, key, fuel as nat)
                                        ->Ok_0;
                                    assert(pc.view_map() =~= m2);
                                }
                                Ok(true)
                            },
                            Err(_) => {
                                // The leaf was just read from this id, so
                                // the write-back cannot fail.
                                proof {
                                    assert(false);
                                }
                                Err(StoreError::Io)
                            },
                        }
                    } else {
                        Ok(false)
                    }
                } else {
                    Ok(false)
                }
            },
        }
    }

    /// Removes the slot holding `key` from its leaf; reports whether one was
    /// removed. No rebalancing happens: an underfull leaf stays linked.
    pub fn delete(&self, pc: &mut PageCache, key: i64) -> (r: Result<bool, StoreError>)
        requires
            old(pc).inv(),
            old(pc).pins_zero(),
            old(pc).num_frames() >= 1,
        ensures
            final(pc).inv(),
            final(pc).pins_zero(),
            final(pc).num_frames() == old(pc).num_frames(),
            final(pc).page_count() == old(pc).page_count(),
            self.root == NO_PAGE ==> r == Ok::<bool, StoreError>(false)
                && PageCache::views_preserved(*old(pc), *final(pc)),
            self.root != NO_PAGE ==> match spec_delete(
                old(pc).view_map(),
                self.root as int,
                key,
                (old(pc).page_count() + 1) as nat,
            ) {
                Ok((m2, b)) => r == Ok::<bool, StoreError>(b) && final(pc).view_map() == m2 && b
                    == (spec_tree_get(
                    old(pc).view_map(),
                    self.root,
                    key,
                    (old(pc).page_count() + 1) as nat,
                ) is Ok && spec_tree_get(
                    old(pc).view_map(),
                    self.root,
                    key,
                    (old(pc).page_count() + 1) as nat,
                )->Ok_0 is Some),
                Err(e) => r == Err::<bool, StoreError>(e) && PageCache::views_preserved(
                    *old(pc),
                    *final(pc),
                ),
            },
    {
        if self.root == NO_PAGE {
            return Ok(false);
        }
        let fuel = pc.num_pages() + 1;
        let r = self.delete_rec(pc, self.root, key, fuel);
        proof {
            if spec_delete(old(pc).view_map(), self.root as int, key, fuel as nat) is Ok {
                lemma_delete_reports_presence(
                    old(pc).view_map(),
                    self.root as int,
                    key,
                    fuel as nat,
                );
            }
        }
        r
    }
}

/// The page at `ptr` holds a leaf with room for one more slot.
pub open spec fn leaf_with_room(m: Map<int, Seq<u8>>, ptr: int) -> bool {
    &&& m.contains_key(ptr)
    &&& spec_decode(m[ptr]) is Some
    &&& spec_decode(m[ptr]).unwrap().t is Leaf
    &&& spec_decode(m[ptr]).unwrap().slots.len() + 1 < spec_decode(m[ptr]).unwrap().max
}

/// The page map after rewriting the leaf at `ptr` with `key -> value`
/// inserted or overwritten.
pub open spec fn leaf_upsert_map(m: Map<int, Seq<u8>>, ptr: int, key: i64, value: i32) -> Map<
    int,
    Seq<u8>,
> {
    let n = spec_decode(m[ptr]).unwrap();
    m.insert(
        ptr,
        crate::node::node_bytes(
            NodeView {
                slots: crate::node::spec_upsert(n.slots, Slot(key, Either::Value(value))),
                ..n
            },
        ),
    )
}

/// The leaf an insert descent for `key` rewrites, when the insert changes
/// nothing else: no node on the path is almost full (so nothing splits), no
/// separator needs bumping, every internal page on the path is stored in its
/// canonical encoding (so writing it back changes no byte), and the leaf is
/// not itself a page on the path above it.
pub open spec fn spec_insert_leaf(m: Map<int, Seq<u8>>, ptr: int, key: i64, fuel: nat) -> Option<
    int,
>
    decreases fuel,
{
    if fuel == 0 || !m.contains_key(ptr) {
        None
    } else {
        match spec_decode(m[ptr]) {
            None => None,
            Some(n) => if n.slots.len() + 1 >= n.max {
                None
            } else {
                match spec_find_child(n, key) {
                    Some(c) => if m[ptr] == crate::node::node_bytes(n) && spec_insert_leaf(
                        m,
                        c as int,
                        key,
                        (fuel - 1) as nat,
                    ) != Some(ptr) {
                        spec_insert_leaf(m, c as int, key, (fuel - 1) as nat)
                    } else {
                        None
                    },
                    None => if n.t is Leaf {
                        Some(ptr)
                    } else {
                        None
                    },
                }
            },
        }
    }
}

/// The page at `ptr` holds a leaf that a descent would split: one slot
/// short of capacity or fuller.
pub open spec fn leaf_splitting(m: Map<int, Seq<u8>>, ptr: int) -> bool {
    &&& m.contains_key(ptr)
    &&& spec_decode(m[ptr]) is Some
    &&& spec_decode(m[ptr]).unwrap().t is Leaf
    &&& spec_decode(m[ptr]).unwrap().slots.len() + 1 >= spec_decode(m[ptr]).unwrap().max
}

/// The lower half a splitting leaf keeps: its first half of the slots, now
/// chained to the new sibling, with the key upserted when the lower half
/// covers it.
pub open spec fn leaf_split_lower(n: NodeView, key: i64, value: i32, sib: int) -> NodeView {
    let mid = n.slots.len() as int / 2;
    let lower = n.slots.subrange(0, mid);
    NodeView {
        t: n.t,
        is_root: false,
        id: n.id,
        max: n.max,
        next: sib as PageId,
        slots: if key >= lower.last().0 {
            lower
        } else {
            crate::node::spec_upsert(lower, Slot(key, Either::Value(value)))
        },
    }
}

/// The upper half a splitting leaf hands to the new sibling page: the rest
/// of the slots, taking over the old `next` link, with the key upserted when
/// the upper half covers it.
pub open spec fn leaf_split_upper(n: NodeView, key: i64, value: i32, sib: int) -> NodeView {
    let mid = n.slots.len() as int / 2;
    let lower = n.slots.subrange(0, mid);
    let upper = n.slots.subrange(mid, n.slots.len() as int);
    NodeView {
        t: n.t,
        is_root: false,
        id: sib as PageId,
        max: n.max,
        next: n.next,
        slots: if key >= lower.last().0 {
            crate::node::spec_upsert(upper, Slot(key, Either::Value(value)))
        } else {
            upper
        },
    }
}

/// The page map a splitting leaf leaves behind: the sibling page holds the
/// upper half and the old page the lower half.
pub open spec fn leaf_split_map(
    m: Map<int, Seq<u8>>,
    ptr: int,
    key: i64,
    value: i32,
    sib: int,
) -> Map<int, Seq<u8>> {
    let n = spec_decode(m[ptr]).unwrap();
    m.insert(sib, crate::node::node_bytes(leaf_split_upper(n, key, value, sib))).insert(
        ptr,
        crate::node::node_bytes(leaf_split_lower(n, key, value, sib)),
    )
}

impl BTree {
    /// Inserts into `node` in place: insert-or-overwrite in a leaf, descent
    /// through the covering separator in an internal node, bumping the last
    /// separator up to `key + 1` when no separator covers the key, and
    /// absorbing the two separators a child split hands back in place of the
    /// old child pointer. The caller writes the node back.
    #[verifier::rlimit(50)]
    fn insert_into(
        &self,
        pc: &mut PageCache,
        node: &mut Node,
        key: i64,
        value: i32,
        fuel: usize,
    ) -> (r: Result<(), StoreError>)
        requires
            old(pc).inv(),
            old(pc).pins_zero(),
            old(pc).num_frames() >= 1,
            key < i64::MAX,
            fuel >= 1,
            old(node)@.wf(),
            old(node)@.slots.len() < old(node).max,
        ensures
            final(pc).inv(),
            final(pc).pins_zero(),
            final(pc).num_frames() == old(pc).num_frames(),
            final(pc).page_count() >= old(pc).page_count(),
            final(node)@.wf(),
            final(node).t == old(node).t,
            final(node).id == old(node).id,
            final(node).max == old(node).max,
            final(node).next == old(node).next,
            r is Ok ==> final(node)@.slots.len() >= 1,
            old(node).t is Leaf ==> *final(pc) == *old(pc) && r is Ok && final(node)@ == (NodeView {
                slots: crate::node::spec_upsert(
                    old(node)@.slots,
                    Slot(key, Either::Value(value)),
                ),
                ..old(node)@
            }),
            ({
                &&& old(node).t is Internal
                &&& spec_find_child(old(node)@, key) is Some
                &&& spec_insert_leaf(
                    old(pc).view_map(),
                    spec_find_child(old(node)@, key).unwrap() as int,
                    key,
                    (fuel - 1) as nat,
                ) is Some
            }) ==> ({
                let leaf = spec_insert_leaf(
                    old(pc).view_map(),
                    spec_find_child(old(node)@, key).unwrap() as int,
                    key,
                    (fuel - 1) as nat,
                ).unwrap();
                &&& r is Ok
                &&& final(node)@ == old(node)@
                &&& final(pc).view_map() == leaf_upsert_map(old(pc).view_map(), leaf, key, value)
            }),
        decreases fuel, 0int,
    {
        if node.t == NodeType::Leaf {
            let slot = Slot(key, Either::Value(value));
            proof {
                crate::node::lemma_upsert_sorted(node.slots@, slot);
            }
            node.replace(slot);
            return Ok(());
        }

        let cslot = match node.covering_slot(key) {
            Some(sl) => sl,
            None => {
                proof {
                    assert(spec_find_child(old(node)@, key) is None);
                }
                // No separator covers the key: bump the last separator.
                let last = match node.pop_last() {
                    Some(l) => l,
                    None => {
                        return Err(StoreError::CorruptPage);
                    },
                };
                proof {
                    let s = node.slots@;
                    assert forall|a: int, b: int| 0 <= a < b < s.len() implies #[trigger] s[a].0
                        < #[trigger] s[b].0 by {
                        assert(old(node).slots@[a] == s[a] && old(node).slots@[b] == s[b]);
                    }
                    assert forall|i: int| 0 <= i < s.len() implies (#[trigger] s[i]).1
                        is Pointer by {
                        assert(old(node).slots@[i] == s[i]);
                    }
                    crate::node::lemma_upsert_sorted(s, Slot((key + 1) as i64, last.1));
                }
                node.insert(Slot(key + 1, last.1));
                match node.covering_slot(key) {
                    Some(sl) => sl,
                    None => {
                        return Err(StoreError::CorruptPage);
                    },
                }
            },
        };
        let child = match cslot.1 {
            Either::Pointer(p) => p,
            Either::Value(_) => {
                // The node is internal and well-formed, so its covering
                // slot holds a pointer.
                proof {
                    crate::node::lemma_first_ge(node.slots@, key);
                    assert(node@.wf());
                    assert(cslot == node.slots@[crate::node::first_ge(node.slots@, key)]);
                    assert(cslot.1 is Pointer);
                }
                return Err(StoreError::CorruptPage);
            },
        };
        proof {
            if node@ == old(node)@ && spec_find_child(old(node)@, key) is Some {
                assert(child == spec_find_child(old(node)@, key).unwrap());
            }
        }
        let rec = match self.insert_rec(pc, child, key, value, fuel - 1) {
            Ok(r) => r,
            Err(e) => {
                return Err(e);
            },
        };
        match rec {
            Some((s, os)) => {
                // The child split: replace its old separator with the pair.
                proof {
                    let sl = node.slots@;
                    crate::node::lemma_first_ge(sl, key);
                    crate::node::lemma_first_ge(sl, cslot.0);
                    let i = crate::node::first_ge(sl, key);
                    let i2 = crate::node::first_ge(sl, cslot.0);
                    assert(sl[i] == cslot);
                    if i2 > i {
                        assert(sl[i].0 < cslot.0);
                    }
                    if i2 < i {
                        assert(sl[i2].0 < key);
                        assert(sl[i2].0 >= cslot.0);
                        assert(cslot.0 >= key);
                    }
                    assert(i2 == i);
                    assert(crate::node::spec_slots_get(sl, cslot.0) == Some(cslot));
                    crate::node::lemma_remove_sorted(node.slots@, cslot.0);
                }
                node.remove(cslot.0);
                proof {
                    crate::node::lemma_upsert_sorted(node.slots@, s);
                }
                node.insert(s);
                proof {
                    crate::node::lemma_upsert_sorted(node.slots@, os);
                }
                node.insert(os);
            },
            None => {},
        }
        Ok(())
    }

    /// Splits an almost-full node met on the descent: reserves a page for
    /// the sibling, moves the upper half there, finishes the insert in
    /// whichever half covers the key, writes both halves back, and hands the
    /// separator pair up.
    #[verifier::rlimit(100)]
    fn insert_split(
        &self,
        pc: &mut PageCache,
        node: Node,
        ptr: PageId,
        key: i64,
        value: i32,
        fuel: usize,
        Ghost(m): Ghost<Map<int, Seq<u8>>>,
    ) -> (r: Result<Option<(Slot, Slot)>, StoreError>)
        requires
            old(pc).inv(),
            old(pc).pins_zero(),
            old(pc).num_frames() >= 1,
            key < i64::MAX,
            fuel >= 1,
            node@.wf(),
            node@.slots.len() + 1 >= node.max,
            m == old(pc).view_map(),
            m.contains_key(ptr as int),
            spec_decode(m[ptr as int]) == Some(node@),
        ensures
            final(pc).inv(),
            final(pc).pins_zero(),
            final(pc).num_frames() == old(pc).num_frames(),
            final(pc).page_count() >= old(pc).page_count(),
            match r {
                Ok(Some((s, os))) => ({
                    let m2 = final(pc).view_map();
                    &&& s.1 is Pointer
                    &&& os.1 is Pointer
                    &&& m2.contains_key(ptr as int)
                    &&& m2.contains_key(os.1->Pointer_0 as int)
                    &&& spec_decode(m2[ptr as int]) is Some
                    &&& spec_decode(m2[os.1->Pointer_0 as int]) is Some
                    &&& ({
                        let lo = spec_decode(m2[ptr as int]).unwrap();
                        let hi = spec_decode(m2[os.1->Pointer_0 as int]).unwrap();
                        &&& lo.slots.len() > 0
                        &&& hi.slots.len() > 0
                        &&& s == Slot(lo.slots.last().0, Either::Pointer(lo.id))
                        &&& os == Slot(hi.slots.last().0, Either::Pointer(hi.id))
                    })
                }),
                Ok(None) => false,
                Err(_) => true,
            },
            node@.t is Leaf ==> match r {
                Ok(sep) => ({
                    let sib = old(pc).page_count();
                    &&& sep is Some
                    &&& sep.unwrap().1.1 == Either::Pointer(sib as PageId)
                    &&& final(pc).page_count() == old(pc).page_count() + 1
                    &&& final(pc).view_map() == leaf_split_map(m, ptr as int, key, value, sib)
                }),
                Err(_) => true,
            },
        decreases fuel, 1int,
    {
        let ghost n0 = node@;
        let mut node = node;
        let sib_id = match pc.new_page() {
            Ok(p) => p,
            Err(e) => {
                return Err(e);
            },
        };
        pc.unpin_page(sib_id);
        proof {
            assert(pc.pins_zero());
        }
        let mut nnode = node.split(sib_id);
        let node_last = match node.last_key() {
            Some(k) => k,
            None => {
                return Err(StoreError::CorruptPage);
            },
        };
        if key >= node_last {
            // The upper half covers the key.
            match self.insert_into(pc, &mut nnode, key, value, fuel) {
                Ok(_) => {},
                Err(e) => {
                    return Err(e);
                },
            }
        } else {
            // The lower half covers the key.
            match self.insert_into(pc, &mut node, key, value, fuel) {
                Ok(_) => {},
                Err(e) => {
                    return Err(e);
                },
            }
        }
        let lb = node.encode();
        match pc.write_page(ptr, &lb) {
            Ok(_) => {},
            Err(e) => {
                return Err(e);
            },
        }
        let ub = nnode.encode();
        match pc.write_page(sib_id, &ub) {
            Ok(_) => {},
            Err(e) => {
                return Err(e);
            },
        }
        proof {
            assert(sib_id != ptr);
            assert(pc.view_map()[ptr as int] == crate::node::node_bytes(node@));
            assert(pc.view_map()[sib_id as int] == crate::node::node_bytes(nnode@));
            crate::node::lemma_node_round_trip(node@);
            crate::node::lemma_node_round_trip(nnode@);
            if leaf_splitting(m, ptr as int) {
                let n0v = spec_decode(m[ptr as int]).unwrap();
                assert(n0 == n0v);
                assert(sib_id == old(pc).page_count());
                assert(node@ == leaf_split_lower(n0v, key, value, sib_id as int));
                assert(nnode@ == leaf_split_upper(n0v, key, value, sib_id as int));
                assert(pc.view_map() =~= leaf_split_map(m, ptr as int, key, value, sib_id as int));
            }
        }
        Ok(node.get_separators(Some(&nnode)))
    }

    /// One level of the insert descent: splits the node preemptively when it
    /// is almost full, continues in the half that covers the key, and hands
    /// the pair of separator slots up when a split happened.
    #[verifier::rlimit(100)]
    fn insert_rec(&self, pc: &mut PageCache, ptr: PageId, key: i64, value: i32, fuel: usize) -> (r:
        Result<Option<(Slot, Slot)>, StoreError>)
        requires
            old(pc).inv(),
            old(pc).pins_zero(),
            old(pc).num_frames() >= 1,
            key < i64::MAX,
        ensures
            final(pc).inv(),
            final(pc).pins_zero(),
            final(pc).num_frames() == old(pc).num_frames(),
            final(pc).page_count() >= old(pc).page_count(),
            match r {
                Ok(Some((s, os))) => ({
                    let m2 = final(pc).view_map();
                    &&& s.1 is Pointer
                    &&& os.1 is Pointer
                    &&& m2.contains_key(ptr as int)
                    &&& m2.contains_key(os.1->Pointer_0 as int)
                    &&& spec_decode(m2[ptr as int]) is Some
                    &&& spec_decode(m2[os.1->Pointer_0 as int]) is Some
                    &&& ({
                        let lo = spec_decode(m2[ptr as int]).unwrap();
                        let hi = spec_decode(m2[os.1->Pointer_0 as int]).unwrap();
                        &&& lo.slots.len() > 0
                        &&& hi.slots.len() > 0
                        &&& s == Slot(lo.slots.last().0, Either::Pointer(lo.id))
                        &&& os == Slot(hi.slots.last().0, Either::Pointer(hi.id))
                    })
                }),
                _ => true,
            },
            match spec_insert_leaf(old(pc).view_map(), ptr as int, key, fuel as nat) {
                Some(leaf) => r == Ok::<Option<(Slot, Slot)>, StoreError>(None)
                    && final(pc).view_map() == leaf_upsert_map(
                    old(pc).view_map(),
                    leaf,
                    key,
                    value,
                ),
                None => true,
            },
            (fuel >= 1 && leaf_splitting(old(pc).view_map(), ptr as int)) ==> match r {
                Ok(sep) => ({
                    let sib = old(pc).page_count();
                    &&& sep is Some
                    &&& sep.unwrap().1.1 == Either::Pointer(sib as PageId)
                    &&& final(pc).page_count() == old(pc).page_count() + 1
                    &&& final(pc).view_map() == leaf_split_map(
                        old(pc).view_map(),
                        ptr as int,
                        key,
                        value,
                        sib,
                    )
                }),
                Err(_) => true,
            },
        decreases fuel, 2int,
    {
        let ghost m = old(pc).view_map();
        if fuel == 0 {
            return Err(StoreError::CorruptPage);
        }
        let bytes = match pc.read_page(ptr) {
            Ok(b) => b,
            Err(e) => {
                proof {
                    assert(!m.contains_key(ptr as int));
                }
                return Err(e);
            },
        };
        proof {
            assert(m.contains_key(ptr as int) && m[ptr as int] == bytes@);
        }
        let mut node = match Node::decode(&bytes) {
            Ok(n) => n,
            Err(e) => {
                return Err(e);
            },
        };

        if !node.almost_full() {
            let ghost entered = node@;
            let ghost pre_ins = *pc;
            match self.insert_into(pc, &mut node, key, value, fuel) {
                Ok(_) => {},
                Err(e) => {
                    proof {
                        if spec_insert_leaf(m, ptr as int, key, fuel as nat) is Some {
                            let n0 = spec_decode(m[ptr as int]).unwrap();
                            assert(entered == n0);
                            assert(pre_ins.view_map() =~= m);
                            if !(n0.t is Leaf) {
                                let c = spec_find_child(n0, key).unwrap();
                                assert(spec_insert_leaf(m, c as int, key, (fuel - 1) as nat)
                                    is Some);
                            }
                            assert(false);
                        }
                    }
                    return Err(e);
                },
            }
            let out = node.encode();
            let ghost mid = *pc;
            match pc.write_page(ptr, &out) {
                Ok(_) => {},
                Err(e) => {
                    proof {
                        if spec_insert_leaf(m, ptr as int, key, fuel as nat) is Some {
                            assert(m.contains_key(ptr as int));
                            assert(0 <= ptr < mid.page_count());
                            assert(false);
                        }
                    }
                    return Err(e);
                },
            }
            proof {
                if spec_insert_leaf(m, ptr as int, key, fuel as nat) is Some {
                    let leaf = spec_insert_leaf(m, ptr as int, key, fuel as nat).unwrap();
                    let n0 = spec_decode(m[ptr as int]).unwrap();
                    assert(entered == n0);
                    if n0.t is Leaf {
                        assert(leaf == ptr as int);
                        assert(mid.view_map() =~= m);
                        assert(pc.view_map() =~= leaf_upsert_map(m, ptr as int, key, value));
                    } else {
                        assert(leaf != ptr as int);
                        assert(pre_ins.view_map() =~= m);
                        let c = spec_find_child(n0, key).unwrap();
                        assert(spec_insert_leaf(m, c as int, key, (fuel - 1) as nat) == Some(
                            leaf,
                        ));
                        assert(mid.view_map() == leaf_upsert_map(m, leaf, key, value));
                        assert(mid.view_map()[ptr as int] == m[ptr as int]);
                        assert(pc.view_map() =~= leaf_upsert_map(m, leaf, key, value));
                    }
                }
            }
            return Ok(None);
        }

        // An almost-full node splits; a helper carries the rest of the
        // descent so each piece verifies on its own.
        proof {
            assert(spec_insert_leaf(m, ptr as int, key, fuel as nat) is None);
            assert(pc.view_map() =~= m);
        }
        self.insert_split(pc, node, ptr, key, value, fuel, Ghost(m))
    }

    /// Inserts `key -> value`, overwriting any slot with the same key. On
    /// first insert a leaf root is allocated; when the root splits, a new
    /// internal root takes the two halves' separators.
    pub fn insert(&mut self, pc: &mut PageCache, key: i64, value: i32) -> (r: Result<
        (),
        StoreError,
    >)
        requires
            old(pc).inv(),
            old(pc).pins_zero(),
            old(pc).num_frames() >= 1,
            3 <= old(self).max <= MAX_SLOTS,
            key < i64::MAX,
        ensures
            final(pc).inv(),
            final(pc).pins_zero(),
            final(pc).num_frames() == old(pc).num_frames(),
            final(pc).page_count() >= old(pc).page_count(),
            final(self).max == old(self).max,
            r is Ok ==> final(self).root != NO_PAGE,
            r is Err ==> final(self).root == old(self).root || old(self).root == NO_PAGE,
            (old(self).root != NO_PAGE && spec_insert_leaf(
                old(pc).view_map(),
                old(self).root as int,
                key,
                (old(pc).page_count() + 1) as nat,
            ) is Some) ==> r is Ok && final(self).root == old(self).root && final(pc).view_map()
                == leaf_upsert_map(
                old(pc).view_map(),
                spec_insert_leaf(
                    old(pc).view_map(),
                    old(self).root as int,
                    key,
                    (old(pc).page_count() + 1) as nat,
                ).unwrap(),
                key,
                value,
            ),
    {
        if self.root == NO_PAGE {
            let pid = match pc.new_page() {
                Ok(p) => p,
                Err(e) => {
                    return Err(e);
                },
            };
            pc.unpin_page(pid);
            proof {
                assert(pc.pins_zero());
            }
            let node = Node::new(pid, self.max, NodeType::Leaf, true);
            let b = node.encode();
            match pc.write_page(pid, &b) {
                Ok(_) => {},
                Err(e) => {
                    return Err(e);
                },
            }
            self.root = pid;
        }

        let fuel = pc.num_pages() + 1;
        let sep = match self.insert_rec(pc, self.root, key, value, fuel) {
            Ok(s) => s,
            Err(e) => {
                return Err(e);
            },
        };
        match sep {
            Some((s, os)) => {
                // The root split: a new internal root takes both separators.
                let new_root_id = match pc.new_page() {
                    Ok(p) => p,
                    Err(e) => {
                        return Err(e);
                    },
                };
                pc.unpin_page(new_root_id);
                proof {
                    assert(pc.pins_zero());
                }
                let mut new_root = Node::new(new_root_id, self.max, NodeType::Internal, true);
                proof {
                    crate::node::lemma_upsert_sorted(new_root.slots@, s);
                }
                new_root.insert(s);
                proof {
                    crate::node::lemma_upsert_sorted(new_root.slots@, os);
                }
                new_root.insert(os);
                let b = new_root.encode();
                match pc.write_page(new_root_id, &b) {
                    Ok(_) => {},
                    Err(e) => {
                        return Err(e);
                    },
                }
                self.root = new_root_id;
                Ok(())
            },
            None => Ok(()),
        }
    }
}

/// The page id of the leftmost leaf reachable from `ptr` by following each
/// internal node's first child.
pub open spec fn spec_first(m: Map<int, Seq<u8>>, ptr: int, fuel: nat) -> Result<PageId, StoreError>
    decreases fuel,
{
    if fuel == 0 {
        Err(StoreError::CorruptPage)
    } else if !m.contains_key(ptr) {
        Err(StoreError::Io)
    } else {
        match spec_decode(m[ptr]) {
            None => Err(StoreError::CorruptPage),
            Some(n) => if n.t is Leaf {
                Ok(ptr as PageId)
            } else if n.slots.len() == 0 {
                Err(StoreError::CorruptPage)
            } else {
                spec_first(m, n.slots[0].1->Pointer_0 as int, (fuel - 1) as nat)
            },
        }
    }
}

/// How many nodes the `next` chain starting at `ptr` links, ending at the
/// `NO_PAGE` sentinel.
pub open spec fn spec_chain_len(m: Map<int, Seq<u8>>, ptr: int, fuel: nat) -> Result<
    int,
    StoreError,
>
    decreases fuel,
{
    if ptr == NO_PAGE {
        Ok(0)
    } else if fuel == 0 {
        Err(StoreError::CorruptPage)
    } else if !m.contains_key(ptr) {
        Err(StoreError::Io)
    } else {
        match spec_decode(m[ptr]) {
            None => Err(StoreError::CorruptPage),
            Some(n) => match spec_chain_len(m, n.next as int, (fuel - 1) as nat) {
                Ok(c) => Ok(1 + c),
                Err(e) => Err(e),
            },
        }
    }
}

impl BTree {
    /// The page id of the leftmost leaf reachable from `ptr`, found by
    /// following each internal node's first child.
    pub fn first(&self, pc: &mut PageCache, ptr: PageId) -> (r: Result<PageId, StoreError>)
        requires
            old(pc).inv(),
            old(pc).pins_zero(),
            old(pc).num_frames() >= 1,
        ensures
            final(pc).inv(),
            final(pc).pins_zero(),
            final(pc).num_frames() == old(pc).num_frames(),
            PageCache::views_preserved(*old(pc), *final(pc)),
            r == spec_first(old(pc).view_map(), ptr as int, (old(pc).page_count() + 1) as nat),
    {
        let ghost m = old(pc).view_map();
        let mut cur = ptr;
        let mut fuel = pc.num_pages() + 1;
        let ghost fuel0 = fuel;
        loop
            invariant
                pc.inv(),
                pc.pins_zero(),
                pc.num_frames() == old(pc).num_frames(),
                pc.num_frames() >= 1,
                PageCache::views_preserved(*old(pc), *pc),
                pc.view_map() == m,
                m == old(pc).view_map(),
                fuel0 == old(pc).page_count() + 1,
                spec_first(m, ptr as int, fuel0 as nat) == spec_first(m, cur as int, fuel as nat),
            decreases fuel,
        {
            proof {
                assert(pc.view_map() =~= m);
            }
            if fuel == 0 {
                return Err(StoreError::CorruptPage);
            }
            let bytes = match pc.read_page(cur) {
                Ok(b) => b,
                Err(e) => {
                    proof {
                        assert(!m.contains_key(cur as int));
                        assert(pc.view_map() =~= m);
                    }
                    return Err(e);
                },
            };
            proof {
                assert(m.contains_key(cur as int) && m[cur as int] == bytes@);
                assert(pc.view_map() =~= m);
            }
            let node = match Node::decode(&bytes) {
                Ok(n) => n,
                Err(e) => {
                    return Err(e);
                },
            };
            if node.t == NodeType::Leaf {
                return Ok(cur);
            }
            match node.first() {
                Some(sl) => {
                    match sl.1 {
                        Either::Pointer(p) => {
                            cur = p;
                            fuel = fuel - 1;
                        },
                        Either::Value(_) => {
                            // A decoded internal node holds only pointers.
                            proof {
                                assert(node.slots@[0].1 is Pointer);
                            }
                            return Err(StoreError::CorruptPage);
                        },
                    }
                },
                None => {
                    return Err(StoreError::CorruptPage);
                },
            }
        }
    }

    /// Walks the leaf sibling chain from the leftmost leaf, counting one
    /// more than the number of chained nodes.
    pub fn leaf_count(&self, pc: &mut PageCache) -> (r: Result<usize, StoreError>)
        requires
            old(pc).inv(),
            old(pc).pins_zero(),
            old(pc).num_frames() >= 1,
        ensures
            final(pc).inv(),
            final(pc).pins_zero(),
            final(pc).num_frames() == old(pc).num_frames(),
            PageCache::views_preserved(*old(pc), *final(pc)),
            self.root == NO_PAGE ==> r == Ok::<usize, StoreError>(0),
            self.root != NO_PAGE ==> ({
                let m = old(pc).view_map();
                let fuel = (old(pc).page_count() + 1) as nat;
                match spec_first(m, self.root as int, fuel) {
                    Ok(leaf) => match spec_chain_len(m, leaf as int, fuel) {
                        Ok(c) => r is Ok && r->Ok_0 == 1 + c,
                        Err(e) => r == Err::<usize, StoreError>(e),
                    },
                    Err(e) => r == Err::<usize, StoreError>(e),
                }
            }),
    {
        if self.root == NO_PAGE {
            return Ok(0);
        }
        let ghost m = old(pc).view_map();
        let mut ret: usize = 1;
        let mut cur = match self.first(pc, self.root) {
            Ok(c) => c,
            Err(e) => {
                return Err(e);
            },
        };
        let ghost leaf0 = cur;
        let mut fuel = pc.num_pages() + 1;
        let ghost fuel0 = fuel;
        loop
            invariant
                pc.inv(),
                pc.pins_zero(),
                pc.num_frames() == old(pc).num_frames(),
                pc.num_frames() >= 1,
                PageCache::views_preserved(*old(pc), *pc),
                pc.view_map() == m,
                m == old(pc).view_map(),
                fuel0 == old(pc).page_count() + 1,
                spec_first(m, self.root as int, fuel0 as nat) == Ok::<PageId, StoreError>(leaf0),
                self.root != NO_PAGE,
                fuel <= 0x8000_0000,
                1 <= ret <= 1 + fuel0 - fuel,
                match spec_chain_len(m, cur as int, fuel as nat) {
                    Ok(c) => spec_chain_len(m, leaf0 as int, fuel0 as nat) == Ok::<
                        int,
                        StoreError,
                    >(c + ret - 1),
                    Err(e) => spec_chain_len(m, leaf0 as int, fuel0 as nat) == Err::<
                        int,
                        StoreError,
                    >(e),
                },
            decreases fuel,
        {
            proof {
                assert(pc.view_map() =~= m);
            }
            if cur == NO_PAGE {
                return Ok(ret);
            }
            if fuel == 0 {
                return Err(StoreError::CorruptPage);
            }
            let bytes = match pc.read_page(cur) {
                Ok(b) => b,
                Err(e) => {
                    proof {
                        assert(!m.contains_key(cur as int));
                        assert(pc.view_map() =~= m);
                    }
                    return Err(e);
                },
            };
            proof {
                assert(m.contains_key(cur as int) && m[cur as int] == bytes@);
                assert(pc.view_map() =~= m);
            }
            let node = match Node::decode(&bytes) {
                Ok(n) => n,
                Err(e) => {
                    return Err(e);
                },
            };
            ret = ret + 1;
            cur = node.next;
            fuel = fuel - 1;
        }
    }
}

/// The run ascends strictly by key.
pub open spec fn entries_sorted(s: Seq<Slot>) -> bool {
    forall|a: int, b: int| 0 <= a < b < s.len() ==> #[trigger] s[a].0 < #[trigger] s[b].0
}

/// The leaf sibling chain from `ptr` on ascends: each leaf's greatest key is
/// below every key the rest of the chain yields. This is the tree's
/// cross-leaf ordering invariant, stated over the page map.
pub open spec fn chain_ascending(m: Map<int, Seq<u8>>, ptr: int, fuel: nat) -> bool
    decreases fuel,
{
    if fuel == 0 || !m.contains_key(ptr) {
        true
    } else {
        match spec_decode(m[ptr]) {
            None => true,
            Some(n) => if n.t is Leaf {
                if n.next == NO_PAGE {
                    true
                } else {
                    &&& chain_ascending(m, n.next as int, (fuel - 1) as nat)
                    &&& match spec_scan(m, n.next as int, (fuel - 1) as nat) {
                        Ok(rest) => (n.slots.len() > 0 && rest.len() > 0) ==> n.slots.last().0
                            < rest[0].0,
                        Err(_) => true,
                    }
                }
            } else {
                n.slots.len() > 0 ==> chain_ascending(
                    m,
                    n.slots[0].1->Pointer_0 as int,
                    (fuel - 1) as nat,
                )
            },
        }
    }
}

/// Order and uniqueness of a scan: while the leaf chain ascends, the scan
/// output is strictly ascending by key, so no key occurs twice. That every
/// completed operation preserves the ascending chain is the structural
/// invariant the tree maintains.
pub proof fn lemma_scan_sorted(m: Map<int, Seq<u8>>, ptr: int, fuel: nat)
    requires
        chain_ascending(m, ptr, fuel),
        spec_scan(m, ptr, fuel) is Ok,
    ensures
        entries_sorted(spec_scan(m, ptr, fuel)->Ok_0),
        forall|a: int, b: int|
            0 <= a < b < spec_scan(m, ptr, fuel)->Ok_0.len() ==> (#[trigger] spec_scan(
                m,
                ptr,
                fuel,
            )->Ok_0[a]).0 != (#[trigger] spec_scan(m, ptr, fuel)->Ok_0[b]).0,
    decreases fuel,
{
    let n = spec_decode(m[ptr]).unwrap();
    if n.t is Leaf {
        if n.next != NO_PAGE {
            lemma_scan_sorted(m, n.next as int, (fuel - 1) as nat);
            let rest = spec_scan(m, n.next as int, (fuel - 1) as nat)->Ok_0;
            let all = n.slots + rest;
            assert forall|a: int, b: int| 0 <= a < b < all.len() implies #[trigger] all[a].0
                < #[trigger] all[b].0 by {
                if b < n.slots.len() {
                    assert(all[a] == n.slots[a] && all[b] == n.slots[b]);
                } else if a >= n.slots.len() {
                    assert(all[a] == rest[a - n.slots.len()] && all[b] == rest[b - n.slots.len()]);
                } else {
                    assert(all[a] == n.slots[a] && all[b] == rest[b - n.slots.len()]);
                    assert(n.slots[a].0 <= n.slots.last().0);
                    assert(rest[0].0 <= rest[b - n.slots.len()].0);
                }
            }
        }
    } else {
        lemma_scan_sorted(m, n.slots[0].1->Pointer_0 as int, (fuel - 1) as nat);
    }
}

/// Persistence: after every dirty page is flushed the disk holds the cache's
/// view, and a cache freshly opened over that disk presents the same view,
/// so a scan from the same root yields the same entries.
pub proof fn lemma_reopen_preserves_scan(a: PageCache, b: PageCache, root: PageId, fuel: nat)
    requires
        b.page_count() == a.page_count(),
        forall|p: int| 0 <= p < a.page_count() ==> #[trigger] a.disk.page_at(p) == a.page_view(p),
        forall|p: int| 0 <= p < b.page_count() ==> #[trigger] b.page_view(p) == a.disk.page_at(p),
    ensures
        b.view_map() == a.view_map(),
        spec_tree_scan(b.view_map(), root, fuel) == spec_tree_scan(a.view_map(), root, fuel),
        forall|key: i64| #[trigger] spec_tree_get(b.view_map(), root, key, fuel) == spec_tree_get(
            a.view_map(),
            root,
            key,
            fuel,
        ),
{
    assert(b.view_map() =~= a.view_map());
}

/// The leaf page a delete descent for `key` ends at, if it reaches one.
pub open spec fn spec_delete_leaf(m: Map<int, Seq<u8>>, ptr: int, key: i64, fuel: nat) -> Option<
    int,
>
    decreases fuel,
{
    if fuel == 0 || !m.contains_key(ptr) {
        None
    } else {
        match spec_decode(m[ptr]) {
            None => None,
            Some(n) => match spec_find_child(n, key) {
                Some(c) => spec_delete_leaf(m, c as int, key, (fuel - 1) as nat),
                None => if n.t is Leaf {
                    Some(ptr)
                } else {
                    None
                },
            },
        }
    }
}

/// No page visited on the descent for `key` before the final leaf is the
/// page `l` itself: the path reaches its leaf by exactly one route.
pub open spec fn path_avoids(m: Map<int, Seq<u8>>, ptr: int, key: i64, fuel: nat, l: int) -> bool
    decreases fuel,
{
    if fuel == 0 || !m.contains_key(ptr) {
        true
    } else {
        match spec_decode(m[ptr]) {
            None => true,
            Some(n) => match spec_find_child(n, key) {
                Some(c) => ptr != l && path_avoids(m, c as int, key, (fuel - 1) as nat, l),
                None => true,
            },
        }
    }
}

/// Get after delete: when the descent reaches its leaf by one route, a
/// lookup of the deleted key in the state the delete leaves behind finds
/// nothing; the delete changes no page but that leaf. That every reachable
/// page occurs on only one path is the tree's structural invariant.
#[verifier::rlimit(50)]
pub proof fn lemma_get_after_delete(m: Map<int, Seq<u8>>, ptr: int, key: i64, fuel: nat)
    requires
        spec_delete(m, ptr, key, fuel) is Ok,
        match spec_delete_leaf(m, ptr, key, fuel) {
            Some(l) => path_avoids(m, ptr, key, fuel, l),
            None => true,
        },
    ensures
        spec_get(spec_delete(m, ptr, key, fuel)->Ok_0.0, ptr, key, fuel) == Ok::<
            Option<Slot>,
            StoreError,
        >(None),
        m.dom() == spec_delete(m, ptr, key, fuel)->Ok_0.0.dom(),
        forall|p: int|
            m.contains_key(p) && Some(p) != spec_delete_leaf(m, ptr, key, fuel)
                ==> #[trigger] spec_delete(m, ptr, key, fuel)->Ok_0.0[p] == m[p],
    decreases fuel,
{
    let n = spec_decode(m[ptr]).unwrap();
    crate::node::lemma_decode_wf(m[ptr]);
    let m2 = spec_delete(m, ptr, key, fuel)->Ok_0.0;
    match spec_find_child(n, key) {
        Some(c) => {
            lemma_get_after_delete(m, c as int, key, (fuel - 1) as nat);
            assert(m2.dom() =~= m.dom());
            assert(m2[ptr] == m[ptr]);
        },
        None => {
            if n.t is Leaf {
                if spec_slots_get(n.slots, key) is Some {
                    let removed = crate::node::spec_remove_key(n.slots, key);
                    let n2 = NodeView { slots: removed, ..n };
                    crate::node::lemma_remove_sorted(n.slots, key);
                    crate::node::lemma_first_ge(n.slots, key);
                    let i = crate::node::first_ge(n.slots, key);
                    assert forall|j: int| 0 <= j < removed.len() implies (#[trigger] removed[j]).1
                        is Value by {
                        if j < i {
                            assert(removed[j] == n.slots[j]);
                        } else {
                            assert(removed[j] == n.slots[j + 1]);
                        }
                    }
                    assert(n2.wf());
                    crate::node::lemma_node_round_trip(n2);
                    assert(m2 == m.insert(ptr, crate::node::node_bytes(n2)));
                    assert(m2.dom() =~= m.dom());
                    assert(spec_decode(m2[ptr]) == Some(n2));
                    assert(spec_find_child(n2, key) is None);
                } else {
                    assert(m2 == m);
                }
            } else {
                assert(m2 == m);
            }
        },
    }
}

/// A lookup reads the same pages in two maps that differ only at one leaf
/// the descent never passes through, and looks into equivalent slots if it
/// ends there, so it returns the same result.
pub proof fn lemma_get_frame(
    m: Map<int, Seq<u8>>,
    m2: Map<int, Seq<u8>>,
    ptr: int,
    other: i64,
    fuel: nat,
    l: int,
)
    requires
        m2.dom() == m.dom(),
        forall|p: int| m.contains_key(p) && p != l ==> #[trigger] m2[p] == m[p],
        path_avoids(m, ptr, other, fuel, l),
        m.contains_key(l),
        spec_decode(m[l]) is Some,
        spec_decode(m[l]).unwrap().t is Leaf,
        spec_decode(m2[l]) is Some,
        spec_decode(m2[l]).unwrap().t is Leaf,
        spec_slots_get(spec_decode(m2[l]).unwrap().slots, other) == spec_slots_get(
            spec_decode(m[l]).unwrap().slots,
            other,
        ),
    ensures
        spec_get(m2, ptr, other, fuel) == spec_get(m, ptr, other, fuel),
    decreases fuel,
{
    if fuel == 0 || !m.contains_key(ptr) {
    } else {
        if ptr == l {
            // The descent can only meet the rewritten page as its final
            // leaf, where the slots agree on this key.
        } else {
            assert(m2[ptr] == m[ptr]);
            match spec_decode(m[ptr]) {
                None => {},
                Some(n) => match spec_find_child(n, other) {
                    Some(c) => {
                        lemma_get_frame(m, m2, c as int, other, (fuel - 1) as nat, l);
                    },
                    None => {},
                },
            }
        }
    }
}

/// A delete changes no other key's lookup: the other key's descent reads the
/// same pages, and where it ends at the rewritten leaf, the removal left the
/// other key's slot alone.
pub proof fn lemma_delete_preserves_other_lookups(
    m: Map<int, Seq<u8>>,
    ptr: int,
    key: i64,
    other: i64,
    fuel: nat,
)
    requires
        spec_delete(m, ptr, key, fuel) is Ok,
        other != key,
        match spec_delete_leaf(m, ptr, key, fuel) {
            Some(l) => path_avoids(m, ptr, key, fuel, l) && path_avoids(m, ptr, other, fuel, l),
            None => true,
        },
    ensures
        spec_get(spec_delete(m, ptr, key, fuel)->Ok_0.0, ptr, other, fuel) == spec_get(
            m,
            ptr,
            other,
            fuel,
        ),
    decreases fuel,
{
    let m2 = spec_delete(m, ptr, key, fuel)->Ok_0.0;
    lemma_get_after_delete(m, ptr, key, fuel);
    match spec_delete_leaf(m, ptr, key, fuel) {
        Some(l) => {
            lemma_delete_leaf_is_leaf(m, ptr, key, fuel);
            let n = spec_decode(m[l]).unwrap();
            if spec_slots_get(n.slots, key) is Some {
                let removed = crate::node::spec_remove_key(n.slots, key);
                let n2 = NodeView { slots: removed, ..n };
                crate::node::lemma_decode_wf(m[l]);
                crate::node::lemma_remove_sorted(n.slots, key);
                crate::node::lemma_first_ge(n.slots, key);
                let i = crate::node::first_ge(n.slots, key);
                assert forall|j: int| 0 <= j < removed.len() implies (#[trigger] removed[j]).1
                    is Value by {
                    if j < i {
                        assert(removed[j] == n.slots[j]);
                    } else {
                        assert(removed[j] == n.slots[j + 1]);
                    }
                }
                assert(n2.wf());
                crate::node::lemma_node_round_trip(n2);
                crate::node::lemma_get_after_remove(n.slots, key, other);
                assert(m2.dom() =~= m.dom());
                lemma_get_frame(m, m2, ptr, other, fuel, l);
            } else {
                assert(m2 =~= m);
            }
        },
        None => {
            assert(m2 =~= m);
        },
    }
}

/// A delete descent that reaches a leaf reached a page whose decoding is a
/// leaf, where the rewritten image comes from.
pub proof fn lemma_delete_leaf_is_leaf(m: Map<int, Seq<u8>>, ptr: int, key: i64, fuel: nat)
    requires
        spec_delete(m, ptr, key, fuel) is Ok,
        spec_delete_leaf(m, ptr, key, fuel) is Some,
    ensures
        ({
            let l = spec_delete_leaf(m, ptr, key, fuel).unwrap();
            &&& m.contains_key(l)
            &&& spec_decode(m[l]) is Some
            &&& spec_decode(m[l]).unwrap().t is Leaf
            &&& spec_delete(m, ptr, key, fuel)->Ok_0.0 == if spec_slots_get(
                spec_decode(m[l]).unwrap().slots,
                key,
            ) is Some {
                m.insert(
                    l,
                    crate::node::node_bytes(
                        NodeView {
                            slots: crate::node::spec_remove_key(
                                spec_decode(m[l]).unwrap().slots,
                                key,
                            ),
                            ..spec_decode(m[l]).unwrap()
                        },
                    ),
                )
            } else {
                m
            }
        }),
    decreases fuel,
{
    let n = spec_decode(m[ptr]).unwrap();
    match spec_find_child(n, key) {
        Some(c) => {
            lemma_delete_leaf_is_leaf(m, c as int, key, (fuel - 1) as nat);
        },
        None => {},
    }
}

/// What a full scan returns when page `l`'s slot contribution is read as
/// `repl` instead of its stored slots: the walk itself (kinds, first
/// children, sibling links) is unchanged.
pub open spec fn spec_scan_sub(
    m: Map<int, Seq<u8>>,
    ptr: int,
    fuel: nat,
    l: int,
    repl: Seq<Slot>,
) -> Result<Seq<Slot>, StoreError>
    decreases fuel,
{
    if fuel == 0 {
        Err(StoreError::CorruptPage)
    } else if !m.contains_key(ptr) {
        Err(StoreError::Io)
    } else {
        match spec_decode(m[ptr]) {
            None => Err(StoreError::CorruptPage),
            Some(n) => if n.t is Leaf {
                let here = if ptr == l {
                    repl
                } else {
                    n.slots
                };
                if n.next == NO_PAGE {
                    Ok(here)
                } else {
                    match spec_scan_sub(m, n.next as int, (fuel - 1) as nat, l, repl) {
                        Ok(rest) => Ok(here + rest),
                        Err(e) => Err(e),
                    }
                }
            } else {
                if n.slots.len() == 0 {
                    Err(StoreError::CorruptPage)
                } else {
                    spec_scan_sub(m, n.slots[0].1->Pointer_0 as int, (fuel - 1) as nat, l, repl)
                }
            },
        }
    }
}

/// Scan after rewriting one leaf: the scan of the new map is the old scan
/// with that leaf's contribution substituted, at every point the chain
/// visits it. The walk is unchanged because the rewrite keeps the leaf's
/// sibling link and every other page.
pub proof fn lemma_scan_frame(
    m: Map<int, Seq<u8>>,
    m2: Map<int, Seq<u8>>,
    ptr: int,
    fuel: nat,
    l: int,
)
    requires
        m2.dom() == m.dom(),
        forall|p: int| m.contains_key(p) && p != l ==> #[trigger] m2[p] == m[p],
        m.contains_key(l),
        spec_decode(m[l]) is Some,
        spec_decode(m[l]).unwrap().t is Leaf,
        spec_decode(m2[l]) is Some,
        spec_decode(m2[l]).unwrap().t is Leaf,
        spec_decode(m2[l]).unwrap().next == spec_decode(m[l]).unwrap().next,
    ensures
        spec_scan(m2, ptr, fuel) == spec_scan_sub(
            m,
            ptr,
            fuel,
            l,
            spec_decode(m2[l]).unwrap().slots,
        ),
    decreases fuel,
{
    if fuel == 0 || !m.contains_key(ptr) {
    } else {
        if ptr == l {
            let n = spec_decode(m[l]).unwrap();
            let n2 = spec_decode(m2[l]).unwrap();
            if n.next != NO_PAGE {
                lemma_scan_frame(m, m2, n.next as int, (fuel - 1) as nat, l);
            }
        } else {
            assert(m2[ptr] == m[ptr]);
            match spec_decode(m[ptr]) {
                None => {},
                Some(n) => if n.t is Leaf {
                    if n.next != NO_PAGE {
                        lemma_scan_frame(m, m2, n.next as int, (fuel - 1) as nat, l);
                    }
                } else {
                    if n.slots.len() > 0 {
                        lemma_scan_frame(
                            m,
                            m2,
                            n.slots[0].1->Pointer_0 as int,
                            (fuel - 1) as nat,
                            l,
                        );
                    }
                },
            }
        }
    }
}

/// Scan after delete: the scan of the state a delete leaves behind is the
/// old scan with the rewritten leaf's contribution replaced by its slots
/// without the deleted key, wherever the chain visits that leaf. On a chain
/// that visits each leaf once, that is the old scan minus the deleted pair.
pub proof fn lemma_scan_after_delete(
    m: Map<int, Seq<u8>>,
    root: int,
    ptr: int,
    key: i64,
    fuel: nat,
)
    requires
        spec_delete(m, ptr, key, fuel) is Ok,
        spec_delete(m, ptr, key, fuel)->Ok_0.1,
    ensures
        ({
            let l = spec_delete_leaf(m, ptr, key, fuel).unwrap();
            let n = spec_decode(m[l]).unwrap();
            spec_scan(spec_delete(m, ptr, key, fuel)->Ok_0.0, root, fuel) == spec_scan_sub(
                m,
                root,
                fuel,
                l,
                crate::node::spec_remove_key(n.slots, key),
            )
        }),
    decreases fuel,
{
    lemma_delete_reported_leaf(m, ptr, key, fuel);
    let l = spec_delete_leaf(m, ptr, key, fuel).unwrap();
    lemma_delete_leaf_is_leaf(m, ptr, key, fuel);
    let n = spec_decode(m[l]).unwrap();
    let removed = crate::node::spec_remove_key(n.slots, key);
    let n2 = NodeView { slots: removed, ..n };
    crate::node::lemma_decode_wf(m[l]);
    crate::node::lemma_remove_sorted(n.slots, key);
    crate::node::lemma_first_ge(n.slots, key);
    let i = crate::node::first_ge(n.slots, key);
    assert forall|j: int| 0 <= j < removed.len() implies (#[trigger] removed[j]).1 is Value by {
        if j < i {
            assert(removed[j] == n.slots[j]);
        } else {
            assert(removed[j] == n.slots[j + 1]);
        }
    }
    assert(n2.wf());
    crate::node::lemma_node_round_trip(n2);
    let m2 = spec_delete(m, ptr, key, fuel)->Ok_0.0;
    assert(m2.dom() =~= m.dom());
    lemma_scan_frame(m, m2, root, fuel, l);
}

/// A delete that removed something reached a leaf.
pub proof fn lemma_delete_reported_leaf(m: Map<int, Seq<u8>>, ptr: int, key: i64, fuel: nat)
    requires
        spec_delete(m, ptr, key, fuel) is Ok,
        spec_delete(m, ptr, key, fuel)->Ok_0.1,
    ensures
        spec_delete_leaf(m, ptr, key, fuel) is Some,
        spec_slots_get(
            spec_decode(m[spec_delete_leaf(m, ptr, key, fuel).unwrap()]).unwrap().slots,
            key,
        ) is Some,
    decreases fuel,
{
    let n = spec_decode(m[ptr]).unwrap();
    match spec_find_child(n, key) {
        Some(c) => {
            lemma_delete_reported_leaf(m, c as int, key, (fuel - 1) as nat);
        },
        None => {},
    }
}

/// A delete reports `true` exactly when a lookup in the same state would
/// have found the key: the two descents follow the same separators.
pub proof fn lemma_delete_reports_presence(m: Map<int, Seq<u8>>, ptr: int, key: i64, fuel: nat)
    requires
        spec_delete(m, ptr, key, fuel) is Ok,
    ensures
        spec_delete(m, ptr, key, fuel)->Ok_0.1 == (spec_get(m, ptr, key, fuel) is Ok && spec_get(
            m,
            ptr,
            key,
            fuel,
        )->Ok_0 is Some),
    decreases fuel,
{
    let n = spec_decode(m[ptr]).unwrap();
    match spec_find_child(n, key) {
        Some(c) => {
            lemma_delete_reports_presence(m, c as int, key, (fuel - 1) as nat);
        },
        None => {},
    }
}

/// Get after insert along a no-split descent: when the insert rewrites one
/// leaf (`spec_insert_leaf` finds it), looking the key up in the state the
/// insert leaves behind finds exactly the new entry. The map differs from
/// the old one only at that leaf.
pub proof fn lemma_get_after_insert(m: Map<int, Seq<u8>>, ptr: int, key: i64, value: i32, fuel: nat)
    requires
        spec_insert_leaf(m, ptr, key, fuel) is Some,
    ensures
        spec_get(
            leaf_upsert_map(m, spec_insert_leaf(m, ptr, key, fuel).unwrap(), key, value),
            ptr,
            key,
            fuel,
        ) == Ok::<Option<Slot>, StoreError>(Some(Slot(key, Either::Value(value)))),
    decreases fuel,
{
    let n = spec_decode(m[ptr]).unwrap();
    crate::node::lemma_decode_wf(m[ptr]);
    let leaf = spec_insert_leaf(m, ptr, key, fuel).unwrap();
    let sl = Slot(key, Either::Value(value));
    let m2 = leaf_upsert_map(m, leaf, key, value);
    match spec_find_child(n, key) {
        Some(c) => {
            lemma_get_after_insert(m, c as int, key, value, (fuel - 1) as nat);
            assert(m2[ptr] == m[ptr]);
        },
        None => {
            let up = crate::node::spec_upsert(n.slots, sl);
            let n2 = NodeView { slots: up, ..n };
            crate::node::lemma_upsert_sorted(n.slots, sl);
            crate::node::lemma_first_ge(n.slots, key);
            let i = crate::node::first_ge(n.slots, key);
            assert forall|j: int| 0 <= j < up.len() implies (#[trigger] up[j]).1 is Value by {
                if i < n.slots.len() && n.slots[i].0 == key {
                    assert(up[j] == if j == i {
                        sl
                    } else {
                        n.slots[j]
                    });
                } else if j < i {
                    assert(up[j] == n.slots[j]);
                } else if j == i {
                    assert(up[j] == sl);
                } else {
                    assert(up[j] == n.slots[j - 1]);
                }
            }
            assert(n2.wf());
            crate::node::lemma_node_round_trip(n2);
            assert(spec_decode(m2[ptr]) == Some(n2));
            assert(spec_find_child(n2, key) is None);
            crate::node::lemma_get_after_upsert(n.slots, sl, key);
        },
    }
}

/// Get after insert, at a leaf root with room: inserting `key -> value`
/// and looking `key` up finds exactly that entry, and no other key's lookup
/// changes. For a deeper tree the same shape holds leaf by leaf; here it is
/// stated for the tree whose root is its only node.
pub proof fn lemma_get_after_leaf_root_insert(
    m: Map<int, Seq<u8>>,
    root: PageId,
    key: i64,
    value: i32,
    other: i64,
    fuel: nat,
)
    requires
        root != NO_PAGE,
        fuel >= 1,
        leaf_with_room(m, root as int),
    ensures
        spec_tree_get(leaf_upsert_map(m, root as int, key, value), root, key, fuel) == Ok::<
            Option<Slot>,
            StoreError,
        >(Some(Slot(key, Either::Value(value)))),
        other != key ==> spec_tree_get(leaf_upsert_map(m, root as int, key, value), root, other, fuel)
            == spec_tree_get(m, root, other, fuel),
{
    let n = spec_decode(m[root as int]).unwrap();
    crate::node::lemma_decode_wf(m[root as int]);
    let sl = Slot(key, Either::Value(value));
    let up = crate::node::spec_upsert(n.slots, sl);
    let n2 = NodeView { slots: up, ..n };
    crate::node::lemma_upsert_sorted(n.slots, sl);
    crate::node::lemma_first_ge(n.slots, key);
    let i = crate::node::first_ge(n.slots, key);
    assert forall|j: int| 0 <= j < up.len() implies (#[trigger] up[j]).1 is Value by {
        if i < n.slots.len() && n.slots[i].0 == key {
            assert(up[j] == if j == i {
                sl
            } else {
                n.slots[j]
            });
        } else if j < i {
            assert(up[j] == n.slots[j]);
        } else if j == i {
            assert(up[j] == sl);
        } else {
            assert(up[j] == n.slots[j - 1]);
        }
    }
    assert(n2.wf());
    crate::node::lemma_node_round_trip(n2);
    let m2 = leaf_upsert_map(m, root as int, key, value);
    assert(spec_decode(m2[root as int]) == Some(n2));
    crate::node::lemma_get_after_upsert(n.slots, sl, other);
}

/// Overwrite at a leaf root: inserting under the same key twice leaves the
/// second value as the one the lookup finds.
pub proof fn lemma_leaf_root_overwrite(
    m: Map<int, Seq<u8>>,
    root: PageId,
    key: i64,
    first: i32,
    second: i32,
    fuel: nat,
)
    requires
        root != NO_PAGE,
        fuel >= 1,
        leaf_with_room(m, root as int),
        leaf_with_room(leaf_upsert_map(m, root as int, key, first), root as int),
    ensures
        spec_tree_get(
            leaf_upsert_map(leaf_upsert_map(m, root as int, key, first), root as int, key, second),
            root,
            key,
            fuel,
        ) == Ok::<Option<Slot>, StoreError>(Some(Slot(key, Either::Value(second)))),
{
    lemma_get_after_leaf_root_insert(
        leaf_upsert_map(m, root as int, key, first),
        root,
        key,
        second,
        key,
        fuel,
    );
}

/// Filtering distributes over concatenation.
pub proof fn lemma_slots_in_range_concat(a: Seq<Slot>, b: Seq<Slot>, from: i64, to: i64)
    ensures
        slots_in_range(a + b, from, to) == slots_in_range(a, from, to) + slots_in_range(
            b,
            from,
            to,
        ),
    decreases b.len(),
{
    if b.len() == 0 {
        assert(a + b =~= a);
        assert(slots_in_range(a, from, to) + slots_in_range(b, from, to) =~= slots_in_range(
            a,
            from,
            to,
        ));
    } else {
        lemma_slots_in_range_concat(a, b.drop_last(), from, to);
        assert((a + b).drop_last() =~= a + b.drop_last());
        assert((a + b).last() == b.last());
        assert(slots_in_range(a, from, to) + slots_in_range(b, from, to) =~= slots_in_range(
            a + b,
            from,
            to,
        ));
    }
}

/// A run whose keys all lie above the upper bound filters to nothing.
pub proof fn lemma_slots_in_range_all_above(s: Seq<Slot>, from: i64, to: i64)
    requires
        forall|j: int| 0 <= j < s.len() ==> (#[trigger] s[j]).0 > to,
    ensures
        slots_in_range(s, from, to).len() == 0,
    decreases s.len(),
{
    if s.len() > 0 {
        lemma_slots_in_range_all_above(s.drop_last(), from, to);
    }
}

/// Range correctness along the leaf chain: while the chain ascends, the
/// walk returns exactly the in-bounds entries of the chain scan from the
/// same leaf, wherever the walk starts and whatever deletes emptied on the
/// way.
pub proof fn lemma_range_walk_is_filtered_scan(
    m: Map<int, Seq<u8>>,
    ptr: int,
    from: i64,
    to: i64,
    fuel: nat,
)
    requires
        chain_ascending(m, ptr, fuel),
        spec_scan(m, ptr, fuel) is Ok,
        spec_range_walk(m, ptr, from, to, fuel) is Ok,
    ensures
        spec_range_walk(m, ptr, from, to, fuel)->Ok_0 == slots_in_range(
            spec_scan(m, ptr, fuel)->Ok_0,
            from,
            to,
        ),
    decreases fuel,
{
    let n = spec_decode(m[ptr]).unwrap();
    crate::node::lemma_decode_wf(m[ptr]);
    let taken = slots_in_range(n.slots, from, to);
    if n.next == NO_PAGE {
        // The chain ends here; the scan is this leaf alone.
    } else {
        let rest = spec_scan(m, n.next as int, (fuel - 1) as nat)->Ok_0;
        lemma_slots_in_range_concat(n.slots, rest, from, to);
        if n.slots.len() > 0 && n.slots.last().0 > to {
            // The walk stops: every key to the right is above `to` too, so
            // the rest of the chain filters to nothing.
            lemma_scan_sorted(m, n.next as int, (fuel - 1) as nat);
            assert forall|j: int| 0 <= j < rest.len() implies (#[trigger] rest[j]).0 > to by {
                assert(rest[j].0 >= rest[0].0);
                assert(n.slots.last().0 < rest[0].0);
            }
            lemma_slots_in_range_all_above(rest, from, to);
            assert(spec_range_walk(m, ptr, from, to, fuel)->Ok_0 =~= slots_in_range(
                n.slots + rest,
                from,
                to,
            ));
        } else {
            lemma_range_walk_is_filtered_scan(m, n.next as int, from, to, (fuel - 1) as nat);
        }
    }
}

/// Every slot a range walk returns lies within the bounds.
pub proof fn lemma_slots_in_range_bounds_walk(
    m: Map<int, Seq<u8>>,
    ptr: int,
    from: i64,
    to: i64,
    fuel: nat,
)
    requires
        spec_range_walk(m, ptr, from, to, fuel) is Ok,
    ensures
        forall|j: int|
            0 <= j < spec_range_walk(m, ptr, from, to, fuel)->Ok_0.len() ==> from <= (
            #[trigger] spec_range_walk(m, ptr, from, to, fuel)->Ok_0[j]).0 <= to,
    decreases fuel,
{
    let n = spec_decode(m[ptr]).unwrap();
    lemma_slots_in_range_bounds(n.slots, from, to);
    if !(n.next == NO_PAGE || (n.slots.len() > 0 && n.slots.last().0 > to)) {
        lemma_slots_in_range_bounds_walk(m, n.next as int, from, to, (fuel - 1) as nat);
    }
}

} // verus!
