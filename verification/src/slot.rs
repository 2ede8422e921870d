//! Slots: the entries stored inside a B+Tree node, and their byte layout.
//!
//! A slot pairs a key with either a concrete value (in a leaf) or a child
//! page pointer (in an internal node). On a page a slot is laid out as
//! `key(8) | flag(1) | value_or_ptr(4)`, big-endian, with flag 0 for a value
//! and 1 for a pointer.

use vstd::prelude::*;
use crate::page::{be_i32, be_i64, i32_be, i64_be, lemma_i32_round_trip, lemma_i64_round_trip, read_i32_be, read_i64_be, write_i32_be, write_i64_be, PageId};

verus! {

/// A leaf payload or a child pointer.
#[derive(PartialEq, Eq, Clone, Copy, Debug, Structural)]
pub enum Either {
    Value(i32),
    Pointer(PageId),
}

/// One node entry: a key and its payload.
#[derive(PartialEq, Eq, Clone, Copy, Debug, Structural)]
pub struct Slot(pub i64, pub Either);

/// The flag byte plus a four-byte payload.
pub const EITHER_SIZE: usize = 5;

/// An eight-byte key followed by the payload.
pub const SLOT_SIZE: usize = 13;

/// The byte layout of a payload: flag, then the value or pointer big-endian.
pub open spec fn either_bytes(e: Either) -> Seq<u8> {
    match e {
        Either::Value(v) => seq![0u8] + i32_be(v),
        Either::Pointer(p) => seq![1u8] + i32_be(p),
    }
}

/// The payload read back from `EITHER_SIZE` bytes; `None` on an unknown flag.
pub open spec fn spec_either_from(s: Seq<u8>) -> Option<Either>
    recommends
        s.len() == EITHER_SIZE,
{
    if s[0] == 0u8 {
        Some(Either::Value(be_i32(s.subrange(1, 5))))
    } else if s[0] == 1u8 {
        Some(Either::Pointer(be_i32(s.subrange(1, 5))))
    } else {
        None
    }
}

/// The byte layout of a slot: key big-endian, then the payload.
pub open spec fn slot_bytes(s: Slot) -> Seq<u8> {
    i64_be(s.0) + either_bytes(s.1)
}

/// The slot read back from `SLOT_SIZE` bytes; `None` on an unknown flag.
pub open spec fn spec_slot_from(s: Seq<u8>) -> Option<Slot>
    recommends
        s.len() == SLOT_SIZE,
{
    match spec_either_from(s.subrange(8, 13)) {
        Some(e) => Some(Slot(be_i64(s.subrange(0, 8)), e)),
        None => None,
    }
}

pub proof fn lemma_either_round_trip(e: Either)
    ensures
        either_bytes(e).len() == EITHER_SIZE,
        spec_either_from(either_bytes(e)) == Some(e),
{
    match e {
        Either::Value(v) => {
            assert(either_bytes(e).subrange(1, 5) =~= i32_be(v));
            lemma_i32_round_trip(v);
        },
        Either::Pointer(p) => {
            assert(either_bytes(e).subrange(1, 5) =~= i32_be(p));
            lemma_i32_round_trip(p);
        },
    }
}

pub proof fn lemma_slot_round_trip(s: Slot)
    ensures
        slot_bytes(s).len() == SLOT_SIZE,
        spec_slot_from(slot_bytes(s)) == Some(s),
{
    lemma_either_round_trip(s.1);
    assert(slot_bytes(s).subrange(8, 13) =~= either_bytes(s.1));
    assert(slot_bytes(s).subrange(0, 8) =~= i64_be(s.0));
    lemma_i64_round_trip(s.0);
}

impl Slot {
    /// The slot's key.
    pub open spec fn key(self) -> i64 {
        self.0
    }

    /// Writes this slot at `buf[pos..pos + SLOT_SIZE]`.
    pub fn write_to(&self, buf: &mut Vec<u8>, pos: usize)
        requires
            pos + SLOT_SIZE <= old(buf)@.len(),
        ensures
            final(buf)@.len() == old(buf)@.len(),
            final(buf)@.subrange(pos as int, pos + SLOT_SIZE) == slot_bytes(*self),
            forall|j: int|
                0 <= j < old(buf)@.len() && !(pos <= j < pos + SLOT_SIZE) ==> final(buf)@[j]
                    == old(buf)@[j],
    {
        let _n = buf.len();
        write_i64_be(buf, pos, self.0);
        match self.1 {
            Either::Value(v) => {
                buf.set(pos + 8, 0u8);
                write_i32_be(buf, pos + 9, v);
            },
            Either::Pointer(p) => {
                buf.set(pos + 8, 1u8);
                write_i32_be(buf, pos + 9, p);
            },
        }
        assert(buf@.subrange(pos as int, pos + SLOT_SIZE) =~= slot_bytes(*self));
    }

    /// Reads a slot from `buf[pos..pos + SLOT_SIZE]`; `None` on an unknown
    /// flag byte.
    pub fn read_from(buf: &Vec<u8>, pos: usize) -> (r: Option<Slot>)
        requires
            pos + SLOT_SIZE <= buf@.len(),
        ensures
            r == spec_slot_from(buf@.subrange(pos as int, pos + SLOT_SIZE)),
    {
        let _n = buf.len();
        let ghost window = buf@.subrange(pos as int, pos + SLOT_SIZE);
        let key = read_i64_be(buf, pos);
        let flag = buf[pos + 8];
        assert(buf@.subrange(pos as int, pos + 8) =~= window.subrange(0, 8));
        assert(buf@.subrange(pos + 9, pos + 13) =~= window.subrange(8, 13).subrange(1, 5));
        assert(window.subrange(8, 13)[0] == buf@[pos + 8]);
        if flag == 0 {
            let v = read_i32_be(buf, pos + 9);
            Some(Slot(key, Either::Value(v)))
        } else if flag == 1 {
            let p = read_i32_be(buf, pos + 9);
            Some(Slot(key, Either::Pointer(p)))
        } else {
            None
        }
    }
}

} // verus!
