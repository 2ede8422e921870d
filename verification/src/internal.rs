//! An internal-node pair reader over a raw page: fixed-width key and child
//! page id pairs laid out after the node header. A zero page id is the
//! terminator: decoding stops at the first pair that carries it.

use vstd::prelude::*;
use crate::node::NODE_HEADER_SIZE;
use crate::page::{be_i32, i32_be, read_i32_be, write_i32_be, PageId, PAGE_SIZE};

verus! {

/// How many key/pointer pairs fit after the header: each pair is a four-byte
/// key and a four-byte page id.
pub const INTERNAL_PAIRS: usize = 509;

/// The pairs read from window `i` on, in order, stopping at the first pair
/// whose page id is the zero sentinel, or at the page capacity.
pub open spec fn spec_internal_pairs(b: Seq<u8>, i: int) -> Seq<(i32, PageId)>
    decreases INTERNAL_PAIRS - i,
{
    if i < 0 || i >= INTERNAL_PAIRS {
        Seq::empty()
    } else {
        let base = NODE_HEADER_SIZE + 8 * i;
        let k = be_i32(b.subrange(base as int, base + 4));
        let v = be_i32(b.subrange(base + 4, base + 8));
        if v == 0 {
            Seq::empty()
        } else {
            seq![(k, v)] + spec_internal_pairs(b, i + 1)
        }
    }
}

/// The key/child pairs of one internal node, materialised from page bytes.
pub struct InternalNode {
    pub pairs: Vec<(i32, PageId)>,
}

impl InternalNode {
    /// Reads the pairs stored in `data`, in order, up to the first zero
    /// page id.
    #[verifier::loop_isolation(false)]
    pub fn new(data: &Vec<u8>) -> (r: InternalNode)
        requires
            data@.len() == PAGE_SIZE,
        ensures
            r.pairs@ == spec_internal_pairs(data@, 0),
    {
        let mut pairs: Vec<(i32, PageId)> = Vec::new();
        let mut i: usize = 0;
        while i < INTERNAL_PAIRS
            invariant
                i <= INTERNAL_PAIRS,
                pairs@ + spec_internal_pairs(data@, i as int) == spec_internal_pairs(data@, 0),
            decreases INTERNAL_PAIRS - i,
        {
            let base = NODE_HEADER_SIZE + 8 * i;
            let k = read_i32_be(data, base);
            let v = read_i32_be(data, base + 4);
            if v == 0 {
                proof {
                    assert(pairs@ + spec_internal_pairs(data@, i as int) =~= pairs@);
                }
                return InternalNode { pairs };
            }
            let ghost pre = pairs@;
            pairs.push((k, v));
            proof {
                assert(pairs@ + spec_internal_pairs(data@, i + 1) =~= pre + spec_internal_pairs(
                    data@,
                    i as int,
                ));
            }
            i += 1;
        }
        proof {
            assert(pairs@ + spec_internal_pairs(data@, INTERNAL_PAIRS as int) =~= pairs@);
        }
        InternalNode { pairs }
    }

    /// Writes the pairs back after the header, in order; pairs past the page
    /// capacity are not written, and every byte outside the written pair
    /// region is left as it was, in particular the header, which the page
    /// codec owns.
    pub fn write_data(&self, page: &mut Vec<u8>)
        requires
            old(page)@.len() == PAGE_SIZE,
        ensures
            final(page)@.len() == PAGE_SIZE,
            forall|i: int|
                0 <= i < self.pairs@.len() && i < INTERNAL_PAIRS
                    ==> #[trigger] final(page)@.subrange(
                    NODE_HEADER_SIZE + 8 * i,
                    NODE_HEADER_SIZE + 8 * i + 4,
                ) == i32_be(self.pairs@[i].0),
            forall|i: int|
                0 <= i < self.pairs@.len() && i < INTERNAL_PAIRS
                    ==> #[trigger] final(page)@.subrange(
                    NODE_HEADER_SIZE + 8 * i + 4,
                    NODE_HEADER_SIZE + 8 * i + 8,
                ) == i32_be(self.pairs@[i].1),
            forall|j: int|
                0 <= j < PAGE_SIZE && !(NODE_HEADER_SIZE <= j < NODE_HEADER_SIZE + 8 * (
                if self.pairs@.len() < INTERNAL_PAIRS {
                    self.pairs@.len() as int
                } else {
                    INTERNAL_PAIRS as int
                })) ==> #[trigger] final(page)@[j] == old(page)@[j],
    {
        let _n = page.len();
        let count = if self.pairs.len() < INTERNAL_PAIRS {
            self.pairs.len()
        } else {
            INTERNAL_PAIRS
        };
        let mut i: usize = 0;
        while i < count
            invariant
                i <= count,
                count <= self.pairs@.len(),
                count <= INTERNAL_PAIRS,
                page@.len() == PAGE_SIZE,
                forall|j: int|
                    0 <= j < PAGE_SIZE && !(NODE_HEADER_SIZE <= j < NODE_HEADER_SIZE + 8 * i)
                        ==> #[trigger] page@[j] == old(page)@[j],
                forall|j: int|
                    0 <= j < i ==> #[trigger] page@.subrange(
                        NODE_HEADER_SIZE + 8 * j,
                        NODE_HEADER_SIZE + 8 * j + 4,
                    ) == i32_be(self.pairs@[j].0),
                forall|j: int|
                    0 <= j < i ==> #[trigger] page@.subrange(
                        NODE_HEADER_SIZE + 8 * j + 4,
                        NODE_HEADER_SIZE + 8 * j + 8,
                    ) == i32_be(self.pairs@[j].1),
            decreases count - i,
        {
            let base = NODE_HEADER_SIZE + 8 * i;
            let ghost pre = page@;
            write_i32_be(page, base, self.pairs[i].0);
            write_i32_be(page, base + 4, self.pairs[i].1);
            proof {
                assert forall|j: int|
                    0 <= j < i implies #[trigger] page@.subrange(
                    NODE_HEADER_SIZE + 8 * j,
                    NODE_HEADER_SIZE + 8 * j + 4,
                ) == i32_be(self.pairs@[j].0) by {
                    assert(page@.subrange(NODE_HEADER_SIZE + 8 * j, NODE_HEADER_SIZE + 8 * j + 4)
                        =~= pre.subrange(NODE_HEADER_SIZE + 8 * j, NODE_HEADER_SIZE + 8 * j + 4));
                }
                assert forall|j: int|
                    0 <= j < i implies #[trigger] page@.subrange(
                    NODE_HEADER_SIZE + 8 * j + 4,
                    NODE_HEADER_SIZE + 8 * j + 8,
                ) == i32_be(self.pairs@[j].1) by {
                    assert(page@.subrange(
                        NODE_HEADER_SIZE + 8 * j + 4,
                        NODE_HEADER_SIZE + 8 * j + 8,
                    ) =~= pre.subrange(NODE_HEADER_SIZE + 8 * j + 4, NODE_HEADER_SIZE + 8 * j + 8));
                }
            }
            i += 1;
        }
    }

    /// How many pairs the node holds.
    pub fn len(&self) -> (r: usize)
        ensures
            r == self.pairs@.len(),
    {
        self.pairs.len()
    }
}

} // verus!
