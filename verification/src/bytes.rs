//! Little-endian integer fields inside byte buffers.

use vstd::prelude::*;

verus! {

/// Value of the little-endian `u16` stored at `off`.
pub open spec fn le16(b: Seq<u8>, off: int) -> int {
    b[off] + 256 * b[off + 1]
}

/// Value of the little-endian `u32` stored at `off`.
pub open spec fn le32(b: Seq<u8>, off: int) -> int {
    le16(b, off) + 65536 * le16(b, off + 2)
}

/// Value of the little-endian `u64` stored at `off`.
pub open spec fn le64(b: Seq<u8>, off: int) -> int {
    le32(b, off) + 4294967296 * le32(b, off + 4)
}

/// Little-endian bytes of a `u16`.
pub open spec fn le16_bytes(v: u16) -> Seq<u8> {
    seq![(v % 256) as u8, (v / 256) as u8]
}

/// Little-endian bytes of a `u32`.
pub open spec fn le32_bytes(v: u32) -> Seq<u8> {
    le16_bytes((v % 65536) as u16) + le16_bytes((v / 65536) as u16)
}

/// Little-endian bytes of a `u64`.
pub open spec fn le64_bytes(v: u64) -> Seq<u8> {
    le32_bytes((v % 4294967296) as u32) + le32_bytes((v / 4294967296) as u32)
}

/// Two byte sequences agree everywhere outside `[lo, hi)`.
pub open spec fn same_outside(a: Seq<u8>, b: Seq<u8>, lo: int, hi: int) -> bool {
    &&& a.len() == b.len()
    &&& forall|i: int| 0 <= i < a.len() && (i < lo || hi <= i) ==> #[trigger] b[i] == a[i]
}

pub proof fn lemma_le16_bytes(v: u16)
    ensures
        le16_bytes(v).len() == 2,
        le16(le16_bytes(v), 0) == v,
{
}

pub proof fn lemma_le32_bytes(v: u32)
    ensures
        le32_bytes(v).len() == 4,
        le32(le32_bytes(v), 0) == v,
{
    lemma_le16_bytes((v % 65536) as u16);
    lemma_le16_bytes((v / 65536) as u16);
    let s = le32_bytes(v);
    assert(le16(s, 0) == v % 65536);
    assert(le16(s, 2) == v / 65536);
}

pub proof fn lemma_le64_bytes(v: u64)
    ensures
        le64_bytes(v).len() == 8,
        le64(le64_bytes(v), 0) == v,
{
    lemma_le32_bytes((v % 4294967296) as u32);
    lemma_le32_bytes((v / 4294967296) as u32);
    let s = le64_bytes(v);
    let lo = le32_bytes((v % 4294967296) as u32);
    let hi = le32_bytes((v / 4294967296) as u32);
    assert(le32(s, 0) == le32(lo, 0));
    assert(le32(s, 4) == le32(hi, 0));
}

/// Reading a field at `off` only looks at the bytes of that field.
pub proof fn lemma_le_frame(a: Seq<u8>, b: Seq<u8>, off: int)
    requires
        0 <= off,
        off + 8 <= a.len(),
        a.len() == b.len(),
        forall|i: int| off <= i < off + 8 ==> a[i] == b[i],
    ensures
        le16(a, off) == le16(b, off),
        le32(a, off) == le32(b, off),
        le64(a, off) == le64(b, off),
{
    assert(a[off] == b[off]);
    assert(a[off + 1] == b[off + 1]);
    assert(a[off + 2] == b[off + 2]);
    assert(a[off + 3] == b[off + 3]);
    assert(a[off + 4] == b[off + 4]);
    assert(a[off + 5] == b[off + 5]);
    assert(a[off + 6] == b[off + 6]);
    assert(a[off + 7] == b[off + 7]);
}

/// A field read over a concatenation that starts inside its second part.
pub proof fn lemma_le_in_suffix(a: Seq<u8>, b: Seq<u8>, off: int, width: int)
    requires
        0 <= off,
        off + width <= b.len(),
        width == 2 || width == 4 || width == 8,
    ensures
        width == 2 ==> le16(a + b, a.len() + off) == le16(b, off),
        width == 4 ==> le32(a + b, a.len() + off) == le32(b, off),
        width == 8 ==> le64(a + b, a.len() + off) == le64(b, off),
{
    let s = a + b;
    let n = a.len() as int;
    assert(s[n + off] == b[off]);
    assert(s[n + off + 1] == b[off + 1]);
    if width >= 4 {
        assert(s[n + off + 2] == b[off + 2]);
        assert(s[n + off + 3] == b[off + 3]);
    }
    if width == 8 {
        assert(s[n + off + 4] == b[off + 4]);
        assert(s[n + off + 5] == b[off + 5]);
        assert(s[n + off + 6] == b[off + 6]);
        assert(s[n + off + 7] == b[off + 7]);
    }
}

/// Read the little-endian `u16` at `off`.
pub fn read_u16(bytes: &[u8], off: usize) -> (v: u16)
    requires
        off + 2 <= bytes@.len(),
    ensures
        v == le16(bytes@, off as int),
{
    (bytes[off] as u16) + (bytes[off + 1] as u16) * 256
}

/// Read the little-endian `u32` at `off`.
pub fn read_u32(bytes: &[u8], off: usize) -> (v: u32)
    requires
        off + 4 <= bytes@.len(),
    ensures
        v == le32(bytes@, off as int),
{
    let _n = bytes.len();
    let lo = read_u16(bytes, off) as u32;
    let hi = read_u16(bytes, off + 2) as u32;
    lo + hi * 65536
}

/// Read the little-endian `u64` at `off`.
pub fn read_u64(bytes: &[u8], off: usize) -> (v: u64)
    requires
        off + 8 <= bytes@.len(),
    ensures
        v == le64(bytes@, off as int),
{
    let _n = bytes.len();
    let lo = read_u32(bytes, off) as u64;
    let hi = read_u32(bytes, off + 4) as u64;
    lo + hi * 4294967296
}

/// Read the little-endian `i64` at `off` (two's complement of the `u64`).
pub fn read_i64(bytes: &[u8], off: usize) -> (v: i64)
    requires
        off + 8 <= bytes@.len(),
    ensures
        v == (le64(bytes@, off as int) as u64) as i64,
{
    read_u64(bytes, off) as i64
}

/// Overwrite the `u16` field at `off`.
pub fn write_u16(bytes: &mut Vec<u8>, off: usize, v: u16)
    requires
        off + 2 <= old(bytes)@.len(),
    ensures
        same_outside(old(bytes)@, final(bytes)@, off as int, off + 2),
        le16(final(bytes)@, off as int) == v,
        final(bytes)@.subrange(off as int, off + 2) == le16_bytes(v),
{
    let _n = bytes.len();
    bytes.set(off, (v % 256) as u8);
    bytes.set(off + 1, (v / 256) as u8);
    assert(bytes@.subrange(off as int, off + 2) =~= le16_bytes(v));
}

/// Overwrite the `u32` field at `off`.
pub fn write_u32(bytes: &mut Vec<u8>, off: usize, v: u32)
    requires
        off + 4 <= old(bytes)@.len(),
    ensures
        same_outside(old(bytes)@, final(bytes)@, off as int, off + 4),
        le32(final(bytes)@, off as int) == v,
        final(bytes)@.subrange(off as int, off + 4) == le32_bytes(v),
{
    let _n = bytes.len();
    write_u16(bytes, off, (v % 65536) as u16);
    let ghost b1 = bytes@;
    write_u16(bytes, off + 2, (v / 65536) as u16);
    proof {
        assert(bytes@[off as int] == b1[off as int] && bytes@[off + 1] == b1[off + 1]);
        assert(b1.subrange(off as int, off + 2)[0] == b1[off as int]);
        assert(b1.subrange(off as int, off + 2)[1] == b1[off + 1]);
        assert(bytes@.subrange(off + 2, off + 4)[0] == bytes@[off + 2]);
        assert(bytes@.subrange(off + 2, off + 4)[1] == bytes@[off + 3]);
        assert(bytes@.subrange(off as int, off + 4) =~= le32_bytes(v));
    }
}

/// Overwrite the `u64` field at `off`.
pub fn write_u64(bytes: &mut Vec<u8>, off: usize, v: u64)
    requires
        off + 8 <= old(bytes)@.len(),
    ensures
        same_outside(old(bytes)@, final(bytes)@, off as int, off + 8),
        le64(final(bytes)@, off as int) == v,
        final(bytes)@.subrange(off as int, off + 8) == le64_bytes(v),
{
    let _n = bytes.len();
    write_u32(bytes, off, (v % 4294967296) as u32);
    let ghost b1 = bytes@;
    write_u32(bytes, off + 4, (v / 4294967296) as u32);
    proof {
        assert forall|i: int| 0 <= i < 4 implies #[trigger] bytes@[off + i] == b1.subrange(off as int, off + 4)[i] by {}
        assert forall|i: int| 0 <= i < 4 implies #[trigger] bytes@[off + 4 + i] == bytes@.subrange(off + 4, off + 8)[i] by {}
        assert(bytes@.subrange(off as int, off + 8) =~= le64_bytes(v));
    }
}

/// Append a little-endian `u16`.
pub fn push_u16(bytes: &mut Vec<u8>, v: u16)
    ensures
        final(bytes)@ == old(bytes)@ + le16_bytes(v),
{
    bytes.push((v % 256) as u8);
    bytes.push((v / 256) as u8);
    assert(final(bytes)@ =~= old(bytes)@ + le16_bytes(v));
}

/// Append a little-endian `u32`.
pub fn push_u32(bytes: &mut Vec<u8>, v: u32)
    ensures
        final(bytes)@ == old(bytes)@ + le32_bytes(v),
{
    push_u16(bytes, (v % 65536) as u16);
    push_u16(bytes, (v / 65536) as u16);
    assert(final(bytes)@ =~= old(bytes)@ + le32_bytes(v));
}

/// Append a little-endian `u64`.
pub fn push_u64(bytes: &mut Vec<u8>, v: u64)
    ensures
        final(bytes)@ == old(bytes)@ + le64_bytes(v),
{
    push_u32(bytes, (v % 4294967296) as u32);
    push_u32(bytes, (v / 4294967296) as u32);
    assert(final(bytes)@ =~= old(bytes)@ + le64_bytes(v));
}

} // verus!
