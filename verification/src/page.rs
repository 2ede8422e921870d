//! Pages and the big-endian integer layout used inside them.
//!
//! A page is a fixed-size byte buffer identified by a signed 32-bit id;
//! `NO_PAGE` (-1) is the "no page" sentinel. Multi-byte integers inside a
//! page are big-endian.

use vstd::prelude::*;

verus! {

/// The size of every page in bytes: the atomic unit of I/O and of cache
/// residency.
pub const PAGE_SIZE: usize = 4096;

/// Identifies a page in backing storage. Page 0 is valid.
pub type PageId = i32;

/// The "no page" sentinel.
pub const NO_PAGE: PageId = -1;

/// The bytes of `v` in big-endian order.
pub open spec fn u32_be(v: u32) -> Seq<u8> {
    seq![(v >> 24) as u8, (v >> 16) as u8, (v >> 8) as u8, v as u8]
}

/// The `u32` read big-endian from four bytes.
pub open spec fn be_u32(s: Seq<u8>) -> u32
    recommends
        s.len() == 4,
{
    ((s[0] as u32) << 24) | ((s[1] as u32) << 16) | ((s[2] as u32) << 8) | (s[3] as u32)
}

/// The bytes of `v` in big-endian order, two's complement.
pub open spec fn i32_be(v: i32) -> Seq<u8> {
    u32_be(v as u32)
}

/// The `i32` read big-endian from four bytes, two's complement.
pub open spec fn be_i32(s: Seq<u8>) -> i32
    recommends
        s.len() == 4,
{
    be_u32(s) as i32
}

/// The bytes of `v` in big-endian order.
pub open spec fn u64_be(v: u64) -> Seq<u8> {
    seq![
        (v >> 56) as u8,
        (v >> 48) as u8,
        (v >> 40) as u8,
        (v >> 32) as u8,
        (v >> 24) as u8,
        (v >> 16) as u8,
        (v >> 8) as u8,
        v as u8,
    ]
}

/// The `u64` read big-endian from eight bytes.
pub open spec fn be_u64(s: Seq<u8>) -> u64
    recommends
        s.len() == 8,
{
    ((s[0] as u64) << 56) | ((s[1] as u64) << 48) | ((s[2] as u64) << 40) | ((s[3] as u64) << 32)
        | ((s[4] as u64) << 24) | ((s[5] as u64) << 16) | ((s[6] as u64) << 8) | (s[7] as u64)
}

/// The bytes of `v` in big-endian order, two's complement.
pub open spec fn i64_be(v: i64) -> Seq<u8> {
    u64_be(v as u64)
}

/// The `i64` read big-endian from eight bytes, two's complement.
pub open spec fn be_i64(s: Seq<u8>) -> i64
    recommends
        s.len() == 8,
{
    be_u64(s) as i64
}

pub proof fn lemma_u32_round_trip(v: u32)
    ensures
        be_u32(u32_be(v)) == v,
{
    assert((((((v >> 24) as u8) as u32) << 24) | ((((v >> 16) as u8) as u32) << 16) | ((((v
        >> 8) as u8) as u32) << 8) | ((v as u8) as u32)) == v) by (bit_vector);
}

pub proof fn lemma_i32_round_trip(v: i32)
    ensures
        be_i32(i32_be(v)) == v,
{
    lemma_u32_round_trip(v as u32);
    assert(((v as u32) as i32) == v) by (bit_vector);
}

pub proof fn lemma_u64_round_trip(v: u64)
    ensures
        be_u64(u64_be(v)) == v,
{
    assert((((((v >> 56) as u8) as u64) << 56) | ((((v >> 48) as u8) as u64) << 48) | ((((v
        >> 40) as u8) as u64) << 40) | ((((v >> 32) as u8) as u64) << 32) | ((((v
        >> 24) as u8) as u64) << 24) | ((((v >> 16) as u8) as u64) << 16) | ((((v
        >> 8) as u8) as u64) << 8) | ((v as u8) as u64)) == v) by (bit_vector);
}

pub proof fn lemma_i64_round_trip(v: i64)
    ensures
        be_i64(i64_be(v)) == v,
{
    lemma_u64_round_trip(v as u64);
    assert(((v as u64) as i64) == v) by (bit_vector);
}

/// Writes `v` big-endian at `buf[pos..pos + 4]`.
pub fn write_u32_be(buf: &mut Vec<u8>, pos: usize, v: u32)
    requires
        pos + 4 <= old(buf)@.len(),
    ensures
        final(buf)@.len() == old(buf)@.len(),
        final(buf)@.subrange(pos as int, pos + 4) == u32_be(v),
        forall|j: int|
            0 <= j < old(buf)@.len() && !(pos <= j < pos + 4) ==> final(buf)@[j] == old(buf)@[j],
{
    let _n = buf.len();
    buf.set(pos, (v >> 24) as u8);
    buf.set(pos + 1, (v >> 16) as u8);
    buf.set(pos + 2, (v >> 8) as u8);
    buf.set(pos + 3, v as u8);
    assert(buf@.subrange(pos as int, pos + 4) =~= u32_be(v));
}

/// Reads a big-endian `u32` from `buf[pos..pos + 4]`.
pub fn read_u32_be(buf: &Vec<u8>, pos: usize) -> (r: u32)
    requires
        pos + 4 <= buf@.len(),
    ensures
        r == be_u32(buf@.subrange(pos as int, pos + 4)),
{
    let _n = buf.len();
    let r = ((buf[pos] as u32) << 24) | ((buf[pos + 1] as u32) << 16) | ((buf[pos + 2] as u32) << 8)
        | (buf[pos + 3] as u32);
    assert(buf@.subrange(pos as int, pos + 4)[0] == buf@[pos as int]);
    assert(buf@.subrange(pos as int, pos + 4)[1] == buf@[pos + 1]);
    assert(buf@.subrange(pos as int, pos + 4)[2] == buf@[pos + 2]);
    assert(buf@.subrange(pos as int, pos + 4)[3] == buf@[pos + 3]);
    r
}

/// Writes `v` big-endian, two's complement, at `buf[pos..pos + 4]`.
pub fn write_i32_be(buf: &mut Vec<u8>, pos: usize, v: i32)
    requires
        pos + 4 <= old(buf)@.len(),
    ensures
        final(buf)@.len() == old(buf)@.len(),
        final(buf)@.subrange(pos as int, pos + 4) == i32_be(v),
        forall|j: int|
            0 <= j < old(buf)@.len() && !(pos <= j < pos + 4) ==> final(buf)@[j] == old(buf)@[j],
{
    write_u32_be(buf, pos, v as u32);
}

/// Reads a big-endian, two's complement `i32` from `buf[pos..pos + 4]`.
pub fn read_i32_be(buf: &Vec<u8>, pos: usize) -> (r: i32)
    requires
        pos + 4 <= buf@.len(),
    ensures
        r == be_i32(buf@.subrange(pos as int, pos + 4)),
{
    read_u32_be(buf, pos) as i32
}

/// Writes `v` big-endian at `buf[pos..pos + 8]`.
pub fn write_u64_be(buf: &mut Vec<u8>, pos: usize, v: u64)
    requires
        pos + 8 <= old(buf)@.len(),
    ensures
        final(buf)@.len() == old(buf)@.len(),
        final(buf)@.subrange(pos as int, pos + 8) == u64_be(v),
        forall|j: int|
            0 <= j < old(buf)@.len() && !(pos <= j < pos + 8) ==> final(buf)@[j] == old(buf)@[j],
{
    let _n = buf.len();
    buf.set(pos, (v >> 56) as u8);
    buf.set(pos + 1, (v >> 48) as u8);
    buf.set(pos + 2, (v >> 40) as u8);
    buf.set(pos + 3, (v >> 32) as u8);
    buf.set(pos + 4, (v >> 24) as u8);
    buf.set(pos + 5, (v >> 16) as u8);
    buf.set(pos + 6, (v >> 8) as u8);
    buf.set(pos + 7, v as u8);
    assert(buf@.subrange(pos as int, pos + 8) =~= u64_be(v));
}

/// Reads a big-endian `u64` from `buf[pos..pos + 8]`.
pub fn read_u64_be(buf: &Vec<u8>, pos: usize) -> (r: u64)
    requires
        pos + 8 <= buf@.len(),
    ensures
        r == be_u64(buf@.subrange(pos as int, pos + 8)),
{
    let _n = buf.len();
    let r = ((buf[pos] as u64) << 56) | ((buf[pos + 1] as u64) << 48) | ((buf[pos + 2] as u64)
        << 40) | ((buf[pos + 3] as u64) << 32) | ((buf[pos + 4] as u64) << 24) | ((buf[pos
        + 5] as u64) << 16) | ((buf[pos + 6] as u64) << 8) | (buf[pos + 7] as u64);
    assert forall|j: int| 0 <= j < 8 implies #[trigger] buf@.subrange(pos as int, pos + 8)[j]
        == buf@[pos + j] by {}
    r
}

/// Writes `v` big-endian, two's complement, at `buf[pos..pos + 8]`.
pub fn write_i64_be(buf: &mut Vec<u8>, pos: usize, v: i64)
    requires
        pos + 8 <= old(buf)@.len(),
    ensures
        final(buf)@.len() == old(buf)@.len(),
        final(buf)@.subrange(pos as int, pos + 8) == i64_be(v),
        forall|j: int|
            0 <= j < old(buf)@.len() && !(pos <= j < pos + 8) ==> final(buf)@[j] == old(buf)@[j],
{
    write_u64_be(buf, pos, v as u64);
}

/// Reads a big-endian, two's complement `i64` from `buf[pos..pos + 8]`.
pub fn read_i64_be(buf: &Vec<u8>, pos: usize) -> (r: i64)
    requires
        pos + 8 <= buf@.len(),
    ensures
        r == be_i64(buf@.subrange(pos as int, pos + 8)),
{
    read_u64_be(buf, pos) as i64
}

/// A fresh all-zero page buffer.
pub fn zeroed_page() -> (r: Vec<u8>)
    ensures
        r@.len() == PAGE_SIZE,
        forall|j: int| 0 <= j < r@.len() ==> r@[j] == 0u8,
{
    let mut v: Vec<u8> = Vec::new();
    let mut i: usize = 0;
    while i < PAGE_SIZE
        invariant
            i <= PAGE_SIZE,
            v@.len() == i,
            forall|j: int| 0 <= j < v@.len() ==> v@[j] == 0u8,
        decreases PAGE_SIZE - i,
    {
        v.push(0u8);
        i += 1;
    }
    v
}

} // verus!
