//! B+Tree nodes and their page codec.
//!
//! A node is a header plus an ordered run of slots, encoded into one page:
//!
//! ```text
//! [ kind(1) | is_root(1) | id(4) | count(4) | next(4) | max(4) ]
//! [ count x ( key(8) | flag(1) | value_or_ptr(4) ) ]
//! [ zeros up to PAGE_SIZE ]
//! ```
//!
//! Within a node the slots are strictly ordered by key, and a node is
//! homogeneous: a leaf stores only values, an internal node only child
//! pointers. Decoding validates all of this and fails with `CorruptPage`
//! otherwise.

use vstd::prelude::*;
use crate::page::{be_i32, be_u32, i32_be, u32_be, lemma_i32_round_trip, lemma_u32_round_trip, read_i32_be, read_u32_be, write_i32_be, write_u32_be, zeroed_page, PageId, PAGE_SIZE};
use crate::slot::{lemma_slot_round_trip, slot_bytes, spec_slot_from, Either, Slot, SLOT_SIZE};
use crate::StoreError;

verus! {

/// Whether a node stores values (leaf) or child pointers (internal).
#[derive(PartialEq, Eq, Clone, Copy, Debug, Structural)]
pub enum NodeType {
    Internal,
    Leaf,
}

/// The fixed header length of an encoded node.
pub const NODE_HEADER_SIZE: usize = 18;

/// The largest slot capacity whose encoding always fits in a page.
pub const MAX_SLOTS: u32 = 313;

/// One B+Tree node, materialised from page bytes.
#[derive(Debug)]
pub struct Node {
    pub t: NodeType,
    pub is_root: bool,
    pub id: PageId,
    pub max: u32,
    pub next: PageId,
    pub slots: Vec<Slot>,
}

/// The mathematical image of a node.
pub struct NodeView {
    pub t: NodeType,
    pub is_root: bool,
    pub id: PageId,
    pub max: u32,
    pub next: PageId,
    pub slots: Seq<Slot>,
}

impl View for Node {
    type V = NodeView;

    open spec fn view(&self) -> NodeView {
        NodeView {
            t: self.t,
            is_root: self.is_root,
            id: self.id,
            max: self.max,
            next: self.next,
            slots: self.slots@,
        }
    }
}

/// Strictly ascending keys.
pub open spec fn slots_sorted(s: Seq<Slot>) -> bool {
    forall|a: int, b: int| 0 <= a < b < s.len() ==> #[trigger] s[a].0 < #[trigger] s[b].0
}

/// A leaf holds only values, an internal node only pointers.
pub open spec fn slots_homogeneous(t: NodeType, s: Seq<Slot>) -> bool {
    match t {
        NodeType::Leaf => forall|i: int| 0 <= i < s.len() ==> (#[trigger] s[i]).1 is Value,
        NodeType::Internal => forall|i: int| 0 <= i < s.len() ==> (#[trigger] s[i]).1 is Pointer,
    }
}

impl NodeView {
    /// The node invariant: ordered unique keys, homogeneous payloads, and a
    /// capacity the codec can always honour.
    pub open spec fn wf(self) -> bool {
        &&& slots_sorted(self.slots)
        &&& slots_homogeneous(self.t, self.slots)
        &&& self.slots.len() <= self.max
        &&& 3 <= self.max <= MAX_SLOTS
    }
}

/// The encoded slot run, in order.
pub open spec fn slots_bytes(s: Seq<Slot>) -> Seq<u8>
    decreases s.len(),
{
    if s.len() == 0 {
        Seq::empty()
    } else {
        slots_bytes(s.drop_last()) + slot_bytes(s.last())
    }
}

/// The encoded header.
pub open spec fn header_bytes(n: NodeView) -> Seq<u8> {
    seq![
        match n.t {
            NodeType::Leaf => 1u8,
            NodeType::Internal => 2u8,
        },
        if n.is_root {
            1u8
        } else {
            0u8
        },
    ] + i32_be(n.id) + u32_be(n.slots.len() as u32) + i32_be(n.next) + u32_be(n.max)
}

/// Header and slots, without the zero padding.
pub open spec fn node_repr(n: NodeView) -> Seq<u8> {
    header_bytes(n) + slots_bytes(n.slots)
}

/// A run of zero bytes.
pub open spec fn zeros(k: nat) -> Seq<u8> {
    Seq::new(k, |i: int| 0u8)
}

/// The full page image of a node.
pub open spec fn node_bytes(n: NodeView) -> Seq<u8> {
    node_repr(n) + zeros((PAGE_SIZE - node_repr(n).len()) as nat)
}

/// The first `m` slots read back from the slot region of `b`, or `None` if
/// any of them is malformed.
pub open spec fn spec_decode_slots(b: Seq<u8>, m: int) -> Option<Seq<Slot>>
    decreases m,
{
    if m <= 0 {
        Some(Seq::empty())
    } else {
        match spec_decode_slots(b, m - 1) {
            None => None,
            Some(s) => match spec_slot_from(
                b.subrange(
                    NODE_HEADER_SIZE + SLOT_SIZE * (m - 1),
                    NODE_HEADER_SIZE + SLOT_SIZE * m,
                ),
            ) {
                None => None,
                Some(sl) => Some(s.push(sl)),
            },
        }
    }
}

/// The node a page decodes to, or `None` when the page violates the node
/// invariants.
pub open spec fn spec_decode(b: Seq<u8>) -> Option<NodeView> {
    if b.len() != PAGE_SIZE {
        None
    } else {
        let kind = b[0];
        let root = b[1];
        let id = be_i32(b.subrange(2, 6));
        let count = be_u32(b.subrange(6, 10));
        let next = be_i32(b.subrange(10, 14));
        let max = be_u32(b.subrange(14, 18));
        if kind != 1 && kind != 2 {
            None
        } else if root != 0 && root != 1 {
            None
        } else if max < 3 || max > MAX_SLOTS || count > max {
            None
        } else {
            let t = if kind == 1 {
                NodeType::Leaf
            } else {
                NodeType::Internal
            };
            match spec_decode_slots(b, count as int) {
                None => None,
                Some(slots) => {
                    let n = NodeView { t, is_root: root == 1, id, max, next, slots };
                    if slots_sorted(slots) && slots_homogeneous(t, slots) {
                        Some(n)
                    } else {
                        None
                    }
                },
            }
        }
    }
}

pub proof fn lemma_slots_bytes_len(s: Seq<Slot>)
    ensures
        slots_bytes(s).len() == SLOT_SIZE * s.len(),
    decreases s.len(),
{
    if s.len() > 0 {
        lemma_slots_bytes_len(s.drop_last());
        lemma_slot_round_trip(s.last());
    }
}

/// Each slot's window within the encoded run is that slot's bytes.
pub proof fn lemma_slots_bytes_index(s: Seq<Slot>, i: int)
    requires
        0 <= i < s.len(),
    ensures
        slots_bytes(s).len() == SLOT_SIZE * s.len(),
        slots_bytes(s).subrange(SLOT_SIZE * i, SLOT_SIZE * (i + 1)) == slot_bytes(s[i]),
    decreases s.len(),
{
    lemma_slots_bytes_len(s);
    lemma_slots_bytes_len(s.drop_last());
    lemma_slot_round_trip(s.last());
    if i == s.len() - 1 {
        assert(slots_bytes(s).subrange(SLOT_SIZE * i, SLOT_SIZE * (i + 1)) =~= slot_bytes(
            s.last(),
        ));
    } else {
        lemma_slots_bytes_index(s.drop_last(), i);
        assert(slots_bytes(s).subrange(SLOT_SIZE * i, SLOT_SIZE * (i + 1)) =~= slots_bytes(
            s.drop_last(),
        ).subrange(SLOT_SIZE * i, SLOT_SIZE * (i + 1)));
        assert(s.drop_last()[i] == s[i]);
    }
}

/// A successful slot-region read yields exactly `m` slots.
pub proof fn lemma_decode_slots_len(b: Seq<u8>, m: int)
    requires
        m >= 0,
        spec_decode_slots(b, m) is Some,
    ensures
        spec_decode_slots(b, m).unwrap().len() == m,
    decreases m,
{
    if m > 0 {
        lemma_decode_slots_len(b, m - 1);
    }
}

/// Whatever a page decodes to satisfies the node invariant.
pub proof fn lemma_decode_wf(b: Seq<u8>)
    requires
        spec_decode(b) is Some,
    ensures
        spec_decode(b).unwrap().wf(),
{
    let count = be_u32(b.subrange(6, 10));
    lemma_decode_slots_len(b, count as int);
}

/// Once a slot fails to decode, reading more slots still fails.
pub proof fn lemma_decode_slots_none(b: Seq<u8>, m1: int, m2: int)
    requires
        0 <= m1 <= m2,
        spec_decode_slots(b, m1) is None,
    ensures
        spec_decode_slots(b, m2) is None,
    decreases m2 - m1,
{
    if m1 < m2 {
        lemma_decode_slots_none(b, m1, m2 - 1);
    }
}

impl Node {
    /// Serialises this node into a fresh page image.
    pub fn encode(&self) -> (r: Vec<u8>)
        requires
            self@.wf(),
        ensures
            r@ == node_bytes(self@),
            r@.len() == PAGE_SIZE,
    {
        proof {
            lemma_slots_bytes_len(self@.slots);
        }
        let mut buf = zeroed_page();
        let kind: u8 = match self.t {
            NodeType::Leaf => 1,
            NodeType::Internal => 2,
        };
        let root: u8 = if self.is_root {
            1
        } else {
            0
        };
        buf.set(0, kind);
        buf.set(1, root);
        write_i32_be(&mut buf, 2, self.id);
        write_u32_be(&mut buf, 6, self.slots.len() as u32);
        write_i32_be(&mut buf, 10, self.next);
        write_u32_be(&mut buf, 14, self.max);
        assert(buf@.subrange(0, NODE_HEADER_SIZE as int) =~= header_bytes(self@));

        let count = self.slots.len();
        let mut i: usize = 0;
        while i < count
            invariant
                i <= count,
                count == self.slots@.len(),
                count <= MAX_SLOTS,
                buf@.len() == PAGE_SIZE,
                buf@.subrange(0, NODE_HEADER_SIZE as int) == header_bytes(self@),
                buf@.subrange(NODE_HEADER_SIZE as int, NODE_HEADER_SIZE + SLOT_SIZE * i)
                    == slots_bytes(self.slots@.subrange(0, i as int)),
                forall|j: int|
                    NODE_HEADER_SIZE + SLOT_SIZE * i <= j < PAGE_SIZE ==> buf@[j] == 0u8,
            decreases count - i,
        {
            let ghost prefix = self.slots@.subrange(0, i as int);
            let ghost prev = buf@;
            self.slots[i].write_to(&mut buf, NODE_HEADER_SIZE + SLOT_SIZE * i);
            proof {
                lemma_slots_bytes_len(prefix);
                lemma_slot_round_trip(self.slots@[i as int]);
                assert(self.slots@.subrange(0, i + 1).drop_last() =~= prefix);
                assert(buf@.subrange(0, NODE_HEADER_SIZE as int) =~= prev.subrange(
                    0,
                    NODE_HEADER_SIZE as int,
                ));
                assert(buf@.subrange(NODE_HEADER_SIZE as int, NODE_HEADER_SIZE + SLOT_SIZE * (i
                    + 1)) =~= slots_bytes(self.slots@.subrange(0, i + 1)));
            }
            i += 1;
        }
        proof {
            assert(self.slots@.subrange(0, count as int) =~= self.slots@);
            lemma_slots_bytes_len(self@.slots);
            assert(buf@ =~= node_bytes(self@));
        }
        buf
    }

    /// Materialises a node from a page image, validating the node invariants;
    /// a violation yields `CorruptPage`.
    #[verifier::loop_isolation(false)]
    pub fn decode(buf: &Vec<u8>) -> (r: Result<Node, StoreError>)
        ensures
            match r {
                Ok(n) => spec_decode(buf@) == Some(n@) && n@.wf(),
                Err(e) => e == StoreError::CorruptPage && spec_decode(buf@) is None,
            },
    {
        if buf.len() != PAGE_SIZE {
            return Err(StoreError::CorruptPage);
        }
        let kind = buf[0];
        let root = buf[1];
        let id = read_i32_be(buf, 2);
        let count = read_u32_be(buf, 6);
        let next = read_i32_be(buf, 10);
        let max = read_u32_be(buf, 14);
        if !(kind == 1 || kind == 2) {
            return Err(StoreError::CorruptPage);
        }
        if !(root == 0 || root == 1) {
            return Err(StoreError::CorruptPage);
        }
        if max < 3 || max > MAX_SLOTS || count > max {
            return Err(StoreError::CorruptPage);
        }
        let t = if kind == 1 {
            NodeType::Leaf
        } else {
            NodeType::Internal
        };

        let count_us = count as usize;
        let mut slots: Vec<Slot> = Vec::new();
        let mut i: usize = 0;
        while i < count_us
            invariant
                i <= count_us,
                count_us <= MAX_SLOTS,
                buf@.len() == PAGE_SIZE,
                spec_decode_slots(buf@, i as int) == Some(slots@),
                slots@.len() == i,
            decreases count_us - i,
        {
            match Slot::read_from(buf, NODE_HEADER_SIZE + SLOT_SIZE * i) {
                Some(s) => {
                    slots.push(s);
                },
                None => {
                    proof {
                        lemma_decode_slots_none(buf@, i + 1, count as int);
                    }
                    return Err(StoreError::CorruptPage);
                },
            }
            i += 1;
        }

        // Validate strict key order.
        let mut j: usize = 1;
        while j < slots.len()
            invariant
                1 <= j,
                slots@.len() == count_us,
                forall|a: int, b: int|
                    0 <= a < b < j ==> #[trigger] slots@[a].0 < #[trigger] slots@[b].0,
            decreases slots@.len() - j,
        {
            if slots[j - 1].0 >= slots[j].0 {
                proof {
                    assert(!slots_sorted(slots@)) by {
                        if slots_sorted(slots@) {
                            assert(slots@[j - 1].0 < slots@[j as int].0);
                        }
                    }
                }
                return Err(StoreError::CorruptPage);
            }
            assert forall|a: int, b: int| 0 <= a < b < j + 1 implies #[trigger] slots@[a].0
                < #[trigger] slots@[b].0 by {
                if b == j && a < j - 1 {
                    assert(slots@[a].0 < slots@[j - 1].0);
                }
            }
            j += 1;
        }

        // Validate homogeneity.
        let mut h: usize = 0;
        while h < slots.len()
            invariant
                slots@.len() == count_us,
                t == (if kind == 1 {
                    NodeType::Leaf
                } else {
                    NodeType::Internal
                }),
                forall|a: int|
                    0 <= a < h ==> (match t {
                        NodeType::Leaf => (#[trigger] slots@[a]).1 is Value,
                        NodeType::Internal => slots@[a].1 is Pointer,
                    }),
            decreases slots@.len() - h,
        {
            let good = match (t, &slots[h].1) {
                (NodeType::Leaf, Either::Value(_)) => true,
                (NodeType::Internal, Either::Pointer(_)) => true,
                _ => false,
            };
            if !good {
                proof {
                    assert(!slots_homogeneous(t, slots@)) by {
                        if slots_homogeneous(t, slots@) {
                            assert(match t {
                                NodeType::Leaf => slots@[h as int].1 is Value,
                                NodeType::Internal => slots@[h as int].1 is Pointer,
                            });
                        }
                    }
                }
                return Err(StoreError::CorruptPage);
            }
            h += 1;
        }

        let n = Node { t, is_root: root == 1, id, max, next, slots };
        assert(slots_sorted(n@.slots));
        assert(slots_homogeneous(n@.t, n@.slots));
        Ok(n)
    }
}

/// Encoding then decoding a well-formed node yields the node back: the page
/// image of a node is faithful.
/// In a sorted run, looking up the key of any slot finds that slot.
pub proof fn lemma_sorted_get_at(s: Seq<Slot>, j: int)
    requires
        slots_sorted(s),
        0 <= j < s.len(),
    ensures
        spec_slots_get(s, s[j].0) == Some(s[j]),
{
    let key = s[j].0;
    lemma_first_ge(s, key);
    let fg = first_ge(s, key);
    if fg > j {
        assert(s[j].0 < key);
    }
    if fg < j {
        assert(s[fg].0 < s[j].0);
    }
}

/// Get after insert: looking up the inserted key finds exactly the new
/// slot, and no other key's lookup changes.
pub proof fn lemma_get_after_upsert(s: Seq<Slot>, sl: Slot, k: i64)
    requires
        slots_sorted(s),
    ensures
        spec_slots_get(spec_upsert(s, sl), sl.0) == Some(sl),
        k != sl.0 ==> spec_slots_get(spec_upsert(s, sl), k) == spec_slots_get(s, k),
{
    lemma_upsert_sorted(s, sl);
    lemma_first_ge(s, sl.0);
    let i = first_ge(s, sl.0);
    let r = spec_upsert(s, sl);
    if k != sl.0 {
        match spec_slots_get(s, k) {
            Some(t) => {
                lemma_first_ge(s, k);
                let g = first_ge(s, k);
                let g2: int = if i < s.len() && s[i].0 == sl.0 {
                    g
                } else {
                    if g < i {
                        g
                    } else {
                        g + 1
                    }
                };
                assert(r[g2] == t);
                lemma_sorted_get_at(r, g2);
            },
            None => {
                lemma_first_ge(s, k);
                lemma_first_ge(r, k);
                let g = first_ge(r, k);
                if g < r.len() && r[g].0 == k {
                    if i < s.len() && s[i].0 == sl.0 {
                        assert(r[g] == if g == i {
                            sl
                        } else {
                            s[g]
                        });
                        lemma_sorted_get_at(s, g);
                    } else {
                        let back: int = if g < i {
                            g
                        } else {
                            g - 1
                        };
                        assert(r[g] == if g == i {
                            sl
                        } else {
                            s[back]
                        });
                        if g != i {
                            lemma_sorted_get_at(s, back);
                        }
                    }
                }
            },
        }
    }
}

/// Get after delete: the removed key is gone, and no other key's lookup
/// changes.
pub proof fn lemma_get_after_remove(s: Seq<Slot>, k: i64, other: i64)
    requires
        slots_sorted(s),
    ensures
        spec_slots_get(spec_remove_key(s, k), k) is None,
        other != k ==> spec_slots_get(spec_remove_key(s, k), other) == spec_slots_get(s, other),
{
    lemma_remove_sorted(s, k);
    lemma_first_ge(s, k);
    let i = first_ge(s, k);
    let r = spec_remove_key(s, k);
    if other != k && (i < s.len() && s[i].0 == k) {
        match spec_slots_get(s, other) {
            Some(t) => {
                lemma_first_ge(s, other);
                let g = first_ge(s, other);
                let g2: int = if g < i {
                    g
                } else {
                    g - 1
                };
                assert(r[g2] == t);
                lemma_sorted_get_at(r, g2);
            },
            None => {
                lemma_first_ge(r, other);
                let g = first_ge(r, other);
                if g < r.len() && r[g].0 == other {
                    let back: int = if g < i {
                        g
                    } else {
                        g + 1
                    };
                    assert(r[g] == s[back]);
                    lemma_sorted_get_at(s, back);
                }
            },
        }
    }
}

/// Overwrite: inserting a key twice leaves the second slot as the one the
/// lookup finds.
pub proof fn lemma_overwrite(s: Seq<Slot>, k: i64, first: Slot, second: Slot)
    requires
        slots_sorted(s),
        first.0 == k,
        second.0 == k,
    ensures
        spec_slots_get(spec_upsert(spec_upsert(s, first), second), k) == Some(second),
{
    lemma_upsert_sorted(s, first);
    lemma_get_after_upsert(spec_upsert(s, first), second, k);
}

#[verifier::rlimit(100)]
pub proof fn lemma_decode_slots_of_encode(n: NodeView, m: int)
    requires
        0 <= m <= n.slots.len(),
        n.wf(),
    ensures
        spec_decode_slots(node_bytes(n), m) == Some(n.slots.subrange(0, m)),
    decreases m,
{
    lemma_slots_bytes_len(n.slots);
    if m == 0 {
        assert(n.slots.subrange(0, 0) =~= Seq::<Slot>::empty());
    } else {
        lemma_decode_slots_of_encode(n, m - 1);
        lemma_slots_bytes_index(n.slots, m - 1);
        lemma_slot_round_trip(n.slots[m - 1]);
        assert(node_repr(n).subrange(
            NODE_HEADER_SIZE + SLOT_SIZE * (m - 1),
            NODE_HEADER_SIZE + SLOT_SIZE * m,
        ) =~= slots_bytes(n.slots).subrange(SLOT_SIZE * (m - 1), SLOT_SIZE * m));
        assert(node_bytes(n).subrange(
            NODE_HEADER_SIZE + SLOT_SIZE * (m - 1),
            NODE_HEADER_SIZE + SLOT_SIZE * m,
        ) =~= node_repr(n).subrange(
            NODE_HEADER_SIZE + SLOT_SIZE * (m - 1),
            NODE_HEADER_SIZE + SLOT_SIZE * m,
        ));
        assert(n.slots.subrange(0, m - 1).push(n.slots[m - 1]) =~= n.slots.subrange(0, m));
    }
}

/// The least index whose key is `>= key`, or the length when every key is
/// smaller: the descent position for `key`.
pub open spec fn first_ge(s: Seq<Slot>, key: i64) -> int
    decreases s.len(),
{
    if s.len() == 0 {
        0
    } else if s[0].0 >= key {
        0
    } else {
        1 + first_ge(s.subrange(1, s.len() as int), key)
    }
}

pub proof fn lemma_first_ge(s: Seq<Slot>, key: i64)
    ensures
        0 <= first_ge(s, key) <= s.len(),
        forall|j: int| 0 <= j < first_ge(s, key) ==> (#[trigger] s[j]).0 < key,
        first_ge(s, key) < s.len() ==> s[first_ge(s, key)].0 >= key,
    decreases s.len(),
{
    if s.len() > 0 && s[0].0 < key {
        let sub = s.subrange(1, s.len() as int);
        lemma_first_ge(sub, key);
        assert forall|j: int| 0 <= j < first_ge(s, key) implies (#[trigger] s[j]).0 < key by {
            if j > 0 {
                assert(s[j] == sub[j - 1]);
            }
        }
        if first_ge(s, key) < s.len() {
            assert(s[first_ge(s, key)] == sub[first_ge(sub, key)]);
        }
    }
}

/// The slot holding `key`, if any.
pub open spec fn spec_slots_get(s: Seq<Slot>, key: i64) -> Option<Slot> {
    let i = first_ge(s, key);
    if i < s.len() && s[i].0 == key {
        Some(s[i])
    } else {
        None
    }
}

/// Insert-or-overwrite by key, preserving order.
pub open spec fn spec_upsert(s: Seq<Slot>, sl: Slot) -> Seq<Slot> {
    let i = first_ge(s, sl.0);
    if i < s.len() && s[i].0 == sl.0 {
        s.update(i, sl)
    } else {
        s.insert(i, sl)
    }
}

/// The slots with `key`'s slot removed, if it was there.
pub open spec fn spec_remove_key(s: Seq<Slot>, key: i64) -> Seq<Slot> {
    let i = first_ge(s, key);
    if i < s.len() && s[i].0 == key {
        s.remove(i)
    } else {
        s
    }
}

/// The child pointer covering `key`: the first slot whose key is `>= key`.
/// `None` at a leaf, and at an internal node whose separators are all
/// smaller than `key`.
pub open spec fn spec_find_child(n: NodeView, key: i64) -> Option<PageId> {
    if n.t != NodeType::Internal {
        None
    } else {
        let i = first_ge(n.slots, key);
        if i < n.slots.len() {
            Some(n.slots[i].1->Pointer_0)
        } else {
            None
        }
    }
}

pub proof fn lemma_upsert_sorted(s: Seq<Slot>, sl: Slot)
    requires
        slots_sorted(s),
    ensures
        slots_sorted(spec_upsert(s, sl)),
        spec_upsert(s, sl).len() == if spec_slots_get(s, sl.0) is Some {
            s.len() as int
        } else {
            s.len() + 1int
        },
        spec_slots_get(spec_upsert(s, sl), sl.0) == Some(sl),
{
    lemma_first_ge(s, sl.0);
    let i = first_ge(s, sl.0);
    let r = spec_upsert(s, sl);
    if i < s.len() && s[i].0 == sl.0 {
        assert forall|a: int, b: int| 0 <= a < b < r.len() implies #[trigger] r[a].0
            < #[trigger] r[b].0 by {
            assert(s[a].0 < s[b].0);
        }
    } else {
        assert forall|a: int, b: int| 0 <= a < b < r.len() implies #[trigger] r[a].0
            < #[trigger] r[b].0 by {
            if a < i && b == i {
                assert(r[a] == s[a]);
            } else if a == i && b > i {
                assert(r[b] == s[b - 1]);
                assert(s[b - 1].0 >= s[i].0 || b - 1 == i);
            } else if a < i && b > i {
                assert(r[a] == s[a] && r[b] == s[b - 1]);
            } else if a > i && b > i {
                assert(r[a] == s[a - 1] && r[b] == s[b - 1]);
            }
        }
    }
    lemma_first_ge(r, sl.0);
    let ri = first_ge(r, sl.0);
    assert(r[i].0 == sl.0);
    assert(!(ri < i)) by {
        if ri < i {
            assert(r[ri] == s[ri]);
        }
    }
    assert(!(ri > i));
    assert(r[ri] == sl);
}

pub proof fn lemma_remove_sorted(s: Seq<Slot>, key: i64)
    requires
        slots_sorted(s),
    ensures
        slots_sorted(spec_remove_key(s, key)),
        spec_slots_get(spec_remove_key(s, key), key) is None,
        spec_remove_key(s, key).len() == if spec_slots_get(s, key) is Some {
            s.len() - 1
        } else {
            s.len() as int
        },
{
    lemma_first_ge(s, key);
    let i = first_ge(s, key);
    let r = spec_remove_key(s, key);
    if i < s.len() && s[i].0 == key {
        assert forall|a: int, b: int| 0 <= a < b < r.len() implies #[trigger] r[a].0
            < #[trigger] r[b].0 by {
            let sa = if a < i {
                a
            } else {
                a + 1
            };
            let sb = if b < i {
                b
            } else {
                b + 1
            };
            assert(r[a] == s[sa] && r[b] == s[sb]);
        }
        assert forall|j: int| 0 <= j < r.len() implies (#[trigger] r[j]).0 != key by {
            if j < i {
                assert(r[j] == s[j]);
            } else {
                assert(r[j] == s[j + 1]);
            }
        }
        lemma_first_ge(r, key);
        let ri = first_ge(r, key);
        if ri < r.len() && r[ri].0 == key {
            assert(false);
        }
    }
}

impl Node {
    /// An empty node.
    pub fn new(id: PageId, max: u32, t: NodeType, is_root: bool) -> (n: Node)
        requires
            3 <= max <= MAX_SLOTS,
        ensures
            n@ == (NodeView { t, is_root, id, max, next: crate::page::NO_PAGE, slots: Seq::empty() }),
            n@.wf(),
    {
        let n = Node { t, is_root, id, max, next: crate::page::NO_PAGE, slots: Vec::new() };
        proof {
            assert(n@.slots =~= Seq::<Slot>::empty());
        }
        n
    }

    /// How many slots the node holds.
    pub fn len(&self) -> (r: usize)
        ensures
            r == self.slots@.len(),
    {
        self.slots.len()
    }

    /// The descent position for `key`: the least index whose key is `>= key`.
    fn find_index(&self, key: i64) -> (i: usize)
        ensures
            i == first_ge(self.slots@, key),
    {
        let mut i: usize = 0;
        while i < self.slots.len() && self.slots[i].0 < key
            invariant
                i <= self.slots@.len(),
                forall|j: int| 0 <= j < i ==> (#[trigger] self.slots@[j]).0 < key,
            decreases self.slots@.len() - i,
        {
            i += 1;
        }
        proof {
            lemma_first_ge(self.slots@, key);
            let fg = first_ge(self.slots@, key);
            if fg < i {
                assert(self.slots@[fg].0 < key);
            }
            if fg > i {
                assert(self.slots@[i as int].0 < key);
            }
        }
        i
    }

    /// The child pointer covering `key`, as `spec_find_child` describes.
    pub fn find_child(&self, key: i64) -> (r: Option<PageId>)
        requires
            self@.wf(),
        ensures
            r == spec_find_child(self@, key),
    {
        match self.t {
            NodeType::Leaf => None,
            NodeType::Internal => {
                let i = self.find_index(key);
                if i < self.slots.len() {
                    match self.slots[i].1 {
                        Either::Pointer(p) => Some(p),
                        Either::Value(_) => {
                            proof {
                                assert(self.slots@[i as int].1 is Pointer);
                            }
                            None
                        },
                    }
                } else {
                    None
                }
            },
        }
    }

    /// The slot that covers `key` on descent: the first whose key is
    /// `>= key`, if any.
    pub fn covering_slot(&self, key: i64) -> (r: Option<Slot>)
        ensures
            r == if first_ge(self.slots@, key) < self.slots@.len() {
                Some(self.slots@[first_ge(self.slots@, key)])
            } else {
                None::<Slot>
            },
    {
        let i = self.find_index(key);
        proof {
            lemma_first_ge(self.slots@, key);
        }
        if i < self.slots.len() {
            Some(self.slots[i])
        } else {
            None
        }
    }

    /// The slot holding `key`, if any.
    pub fn get(&self, key: i64) -> (r: Option<Slot>)
        ensures
            r == spec_slots_get(self.slots@, key),
    {
        let i = self.find_index(key);
        if i < self.slots.len() && self.slots[i].0 == key {
            Some(self.slots[i])
        } else {
            None
        }
    }

    /// Inserts `slot`, overwriting the slot with the same key if present and
    /// keeping the order.
    pub fn replace(&mut self, slot: Slot)
        requires
            old(self)@.wf(),
            old(self)@.slots.len() < old(self).max || spec_slots_get(old(self).slots@, slot.0)
                is Some,
            match old(self).t {
                NodeType::Leaf => slot.1 is Value,
                NodeType::Internal => slot.1 is Pointer,
            },
        ensures
            final(self)@ == (NodeView { slots: spec_upsert(old(self).slots@, slot), ..old(self)@ }),
            final(self)@.wf(),
    {
        proof {
            lemma_first_ge(self.slots@, slot.0);
            lemma_upsert_sorted(self.slots@, slot);
        }
        let i = self.find_index(slot.0);
        if i < self.slots.len() && self.slots[i].0 == slot.0 {
            self.slots.set(i, slot);
        } else {
            self.slots.insert(i, slot);
        }
    }

    /// Same as `replace`: kept as the insertion entry point.
    pub fn insert(&mut self, slot: Slot)
        requires
            old(self)@.wf(),
            old(self)@.slots.len() < old(self).max || spec_slots_get(old(self).slots@, slot.0)
                is Some,
            match old(self).t {
                NodeType::Leaf => slot.1 is Value,
                NodeType::Internal => slot.1 is Pointer,
            },
        ensures
            final(self)@ == (NodeView { slots: spec_upsert(old(self).slots@, slot), ..old(self)@ }),
            final(self)@.wf(),
    {
        self.replace(slot);
    }

    /// Removes the slot with `key`; reports whether one was there.
    pub fn remove(&mut self, key: i64) -> (r: bool)
        requires
            old(self)@.wf(),
        ensures
            final(self)@ == (NodeView {
                slots: spec_remove_key(old(self).slots@, key),
                ..old(self)@
            }),
            final(self)@.wf(),
            r == (spec_slots_get(old(self).slots@, key) is Some),
    {
        proof {
            lemma_first_ge(self.slots@, key);
            lemma_remove_sorted(self.slots@, key);
        }
        let i = self.find_index(key);
        if i < self.slots.len() && self.slots[i].0 == key {
            self.slots.remove(i);
            true
        } else {
            false
        }
    }

    /// Removes and returns the slot with the greatest key.
    pub fn pop_last(&mut self) -> (r: Option<Slot>)
        ensures
            match r {
                Some(sl) => old(self)@.slots.len() > 0 && sl == old(self)@.slots.last()
                    && final(self)@ == (NodeView {
                    slots: old(self)@.slots.drop_last(),
                    ..old(self)@
                }),
                None => old(self)@.slots.len() == 0 && final(self)@ == old(self)@,
            },
    {
        let r = self.slots.pop();
        r
    }

    /// The slot with the least key, if any.
    pub fn first(&self) -> (r: Option<Slot>)
        ensures
            match r {
                Some(sl) => self.slots@.len() > 0 && sl == self.slots@[0],
                None => self.slots@.len() == 0,
            },
    {
        if self.slots.len() > 0 {
            Some(self.slots[0])
        } else {
            None
        }
    }

    /// The greatest key in the node, if any.
    pub fn last_key(&self) -> (r: Option<i64>)
        ensures
            match r {
                Some(k) => self.slots@.len() > 0 && k == self.slots@.last().0,
                None => self.slots@.len() == 0,
            },
    {
        if self.slots.len() > 0 {
            Some(self.slots[self.slots.len() - 1].0)
        } else {
            None
        }
    }

    /// Whether the node has reached the capacity that triggers a preemptive
    /// split: one slot short of `max`.
    pub fn almost_full(&self) -> (r: bool)
        requires
            self@.wf(),
        ensures
            r == (self.slots@.len() + 1 >= self.max),
    {
        self.slots.len() + 1 >= self.max as usize
    }

    /// Splits off the upper half of the slots into a new sibling node with
    /// page id `sibling_id`. For a leaf, the sibling takes over this node's
    /// `next` link and this node now points at the sibling.
    pub fn split(&mut self, sibling_id: PageId) -> (sib: Node)
        requires
            old(self)@.wf(),
            old(self)@.slots.len() >= 2,
        ensures
            final(self)@.slots == old(self)@.slots.subrange(0, old(self)@.slots.len() as int / 2),
            sib@.slots == old(self)@.slots.subrange(
                old(self)@.slots.len() as int / 2,
                old(self)@.slots.len() as int,
            ),
            final(self).t == old(self).t,
            final(self).id == old(self).id,
            final(self).max == old(self).max,
            final(self).is_root == false,
            sib.t == old(self).t,
            sib.id == sibling_id,
            sib.max == old(self).max,
            sib.is_root == false,
            old(self).t is Leaf ==> sib.next == old(self).next && final(self).next == sibling_id,
            old(self).t is Internal ==> sib.next == crate::page::NO_PAGE
                && final(self).next == old(self).next,
            final(self)@.wf(),
            sib@.wf(),
            final(self)@.slots.len() >= 1,
            sib@.slots.len() >= 1,
    {
        let mid = self.slots.len() / 2;
        let upper = self.slots.split_off(mid);
        let sib_next = match self.t {
            NodeType::Leaf => {
                let old_next = self.next;
                self.next = sibling_id;
                old_next
            },
            NodeType::Internal => crate::page::NO_PAGE,
        };
        self.is_root = false;
        let sib = Node {
            t: self.t,
            is_root: false,
            id: sibling_id,
            max: self.max,
            next: sib_next,
            slots: upper,
        };
        sib
    }

    /// For a node that split, the pair of separator slots the parent absorbs:
    /// `(own_last_key -> own_id, sibling_last_key -> sibling_id)`. `None` when
    /// no split happened.
    pub fn get_separators(&self, split: Option<&Node>) -> (r: Option<(Slot, Slot)>)
        requires
            match split {
                Some(other) => self.slots@.len() > 0 && other.slots@.len() > 0,
                None => true,
            },
        ensures
            match split {
                Some(other) => r == Some(
                    (
                        Slot(self.slots@.last().0, Either::Pointer(self.id)),
                        Slot(other.slots@.last().0, Either::Pointer(other.id)),
                    ),
                ),
                None => r is None,
            },
    {
        match split {
            Some(other) => {
                let a = Slot(self.slots[self.slots.len() - 1].0, Either::Pointer(self.id));
                let b = Slot(other.slots[other.slots.len() - 1].0, Either::Pointer(other.id));
                Some((a, b))
            },
            None => None,
        }
    }
}

#[verifier::rlimit(50)]
pub proof fn lemma_node_round_trip(n: NodeView)
    requires
        n.wf(),
    ensures
        node_bytes(n).len() == PAGE_SIZE,
        spec_decode(node_bytes(n)) == Some(n),
{
    lemma_slots_bytes_len(n.slots);
    let b = node_bytes(n);
    assert(b.subrange(2, 6) =~= i32_be(n.id));
    assert(b.subrange(6, 10) =~= u32_be(n.slots.len() as u32));
    assert(b.subrange(10, 14) =~= i32_be(n.next));
    assert(b.subrange(14, 18) =~= u32_be(n.max));
    lemma_i32_round_trip(n.id);
    lemma_u32_round_trip(n.slots.len() as u32);
    lemma_i32_round_trip(n.next);
    lemma_u32_round_trip(n.max);
    lemma_decode_slots_of_encode(n, n.slots.len() as int);
    assert(n.slots.subrange(0, n.slots.len() as int) =~= n.slots);
}

} // verus!
