//! Byte-level record codec shared by the catalog page and the index nodes:
//! a bounds-checked decode cursor, its parsing model, and append helpers.
//!
//! Integers are little-endian. A string is its UTF-8 byte length as a `u16`
//! followed by the bytes themselves.

use vstd::prelude::*;
use vstd::utf8::{valid_utf8, decode_utf8, encode_utf8, encode_utf8_valid_utf8,
    encode_utf8_decode_utf8};
use crate::bytes::{le16, le32, le64, le16_bytes, le32_bytes, le64_bytes, lemma_le16_bytes,
    lemma_le32_bytes, lemma_le64_bytes, read_u16, read_u32, read_u64, push_u16};
use crate::types::{DbError, DbResult, user_error, corruption};

verus! {

// ---------------------------------------------------------------------------
// The parsing model: each reader yields a value and the position after it.

pub open spec fn p_u8(b: Seq<u8>, pos: int) -> Option<(u8, int)> {
    if 0 <= pos && pos + 1 <= b.len() {
        Some((b[pos], pos + 1))
    } else {
        None
    }
}

pub open spec fn p_u16(b: Seq<u8>, pos: int) -> Option<(u16, int)> {
    if 0 <= pos && pos + 2 <= b.len() {
        Some((le16(b, pos) as u16, pos + 2))
    } else {
        None
    }
}

pub open spec fn p_u32(b: Seq<u8>, pos: int) -> Option<(u32, int)> {
    if 0 <= pos && pos + 4 <= b.len() {
        Some((le32(b, pos) as u32, pos + 4))
    } else {
        None
    }
}

pub open spec fn p_u64(b: Seq<u8>, pos: int) -> Option<(u64, int)> {
    if 0 <= pos && pos + 8 <= b.len() {
        Some((le64(b, pos) as u64, pos + 8))
    } else {
        None
    }
}

pub open spec fn p_bytes(b: Seq<u8>, pos: int, n: int) -> Option<(Seq<u8>, int)> {
    if 0 <= pos && 0 <= n && pos + n <= b.len() {
        Some((b.subrange(pos, pos + n), pos + n))
    } else {
        None
    }
}

/// A length-prefixed UTF-8 string.
pub open spec fn p_string(b: Seq<u8>, pos: int) -> Option<(Seq<char>, int)> {
    match p_u16(b, pos) {
        None => None,
        Some((n, p)) => match p_bytes(b, p, n as int) {
            None => None,
            Some((s, q)) => if valid_utf8(s) {
                Some((decode_utf8(s), q))
            } else {
                None
            },
        },
    }
}

/// Encoding of a string: byte length as `u16`, then the UTF-8 bytes.
pub open spec fn e_string(s: Seq<char>) -> Seq<u8> {
    le16_bytes(encode_utf8(s).len() as u16) + encode_utf8(s)
}

/// The UTF-8 form of `s` fits the `u16` length prefix.
pub open spec fn string_encodable(s: Seq<char>) -> bool {
    encode_utf8(s).len() <= u16::MAX
}

/// UTF-8 takes at most four bytes per character.
pub proof fn lemma_encode_utf8_len(s: Seq<char>)
    ensures
        encode_utf8(s).len() <= 4 * s.len(),
    decreases s.len(),
{
    if s.len() > 0 {
        lemma_encode_utf8_len(s.drop_first());
    }
}

// ---------------------------------------------------------------------------
// Lemmas: a reader applied where an encoding was written gives the value back.

/// Splitting a window of `b` that holds `x + y`.
pub proof fn lemma_sub_split(b: Seq<u8>, pos: int, x: Seq<u8>, y: Seq<u8>)
    requires
        0 <= pos,
        pos + x.len() + y.len() <= b.len(),
        b.subrange(pos, pos + x.len() + y.len()) == x + y,
    ensures
        b.subrange(pos, pos + x.len()) == x,
        b.subrange(pos + x.len(), pos + x.len() + y.len()) == y,
{
    let w = b.subrange(pos, pos + x.len() + y.len());
    assert forall|i: int| 0 <= i < x.len() implies b.subrange(pos, pos + x.len())[i] == x[i] by {
        assert(w[i] == (x + y)[i]);
    }
    assert forall|i: int| 0 <= i < y.len() implies b.subrange(pos + x.len(), pos + x.len()
        + y.len())[i] == y[i] by {
        assert(w[x.len() + i] == (x + y)[x.len() + i]);
    }
    assert(b.subrange(pos, pos + x.len()) =~= x);
    assert(b.subrange(pos + x.len(), pos + x.len() + y.len()) =~= y);
}

pub proof fn lemma_p_u8_at(b: Seq<u8>, pos: int, v: u8)
    requires
        0 <= pos,
        pos + 1 <= b.len(),
        b.subrange(pos, pos + 1) == seq![v],
    ensures
        p_u8(b, pos) == Some((v, pos + 1)),
{
    assert(b.subrange(pos, pos + 1)[0] == b[pos]);
}

pub proof fn lemma_p_u16_at(b: Seq<u8>, pos: int, v: u16)
    requires
        0 <= pos,
        pos + 2 <= b.len(),
        b.subrange(pos, pos + 2) == le16_bytes(v),
    ensures
        p_u16(b, pos) == Some((v, pos + 2)),
{
    let s = b.subrange(pos, pos + 2);
    assert(s[0] == b[pos] && s[1] == b[pos + 1]);
    lemma_le16_bytes(v);
}

pub proof fn lemma_p_u32_at(b: Seq<u8>, pos: int, v: u32)
    requires
        0 <= pos,
        pos + 4 <= b.len(),
        b.subrange(pos, pos + 4) == le32_bytes(v),
    ensures
        p_u32(b, pos) == Some((v, pos + 4)),
{
    let s = b.subrange(pos, pos + 4);
    assert(s[0] == b[pos] && s[1] == b[pos + 1] && s[2] == b[pos + 2] && s[3] == b[pos + 3]);
    lemma_le32_bytes(v);
}

pub proof fn lemma_p_u64_at(b: Seq<u8>, pos: int, v: u64)
    requires
        0 <= pos,
        pos + 8 <= b.len(),
        b.subrange(pos, pos + 8) == le64_bytes(v),
    ensures
        p_u64(b, pos) == Some((v, pos + 8)),
{
    let s = b.subrange(pos, pos + 8);
    assert(s[0] == b[pos] && s[1] == b[pos + 1] && s[2] == b[pos + 2] && s[3] == b[pos + 3]);
    assert(s[4] == b[pos + 4] && s[5] == b[pos + 5] && s[6] == b[pos + 6] && s[7] == b[pos + 7]);
    lemma_le64_bytes(v);
}

pub proof fn lemma_p_string_at(b: Seq<u8>, pos: int, s: Seq<char>)
    requires
        string_encodable(s),
        0 <= pos,
        pos + e_string(s).len() <= b.len(),
        b.subrange(pos, pos + e_string(s).len()) == e_string(s),
    ensures
        p_string(b, pos) == Some((s, pos + e_string(s).len())),
{
    let u = encode_utf8(s);
    lemma_le16_bytes(u.len() as u16);
    lemma_sub_split(b, pos, le16_bytes(u.len() as u16), u);
    lemma_p_u16_at(b, pos, u.len() as u16);
    encode_utf8_valid_utf8(s);
    encode_utf8_decode_utf8(s);
}

// ---------------------------------------------------------------------------
// The executable cursor.

/// `String::from_utf8`: the bytes as an owned string when they are valid UTF-8.
#[verifier::external_body]
pub(crate) fn string_from_utf8(bytes: &[u8]) -> (r: Option<String>)
    ensures
        r is Some <==> valid_utf8(bytes@),
        r matches Some(s) ==> s@ == decode_utf8(bytes@),
{
    String::from_utf8(bytes.to_vec()).ok()
}

/// Bounds-checked reader over a record.
pub struct DecodeCursor<'a> {
    /// Record being read.
    pub bytes: &'a [u8],
    /// Position of the next unread byte.
    pub offset: usize,
}

impl<'a> DecodeCursor<'a> {
    pub open spec fn wf(&self) -> bool {
        self.offset <= self.bytes@.len()
    }

    /// Start reading at the first byte.
    pub fn new(bytes: &'a [u8]) -> (c: Self)
        ensures
            c.bytes@ == bytes@,
            c.offset == 0,
            c.wf(),
    {
        DecodeCursor { bytes, offset: 0 }
    }

    /// Take the next `len` bytes.
    pub fn read_bytes(&mut self, len: usize) -> (r: DbResult<&'a [u8]>)
        requires
            old(self).wf(),
        ensures
            final(self).wf(),
            final(self).bytes@ == old(self).bytes@,
            match p_bytes(old(self).bytes@, old(self).offset as int, len as int) {
                Some((s, p)) => r matches Ok(x) && x@ == s && final(self).offset == p,
                None => r is Err && r->Err_0 is Corruption && final(self).offset == old(self).offset,
            },
    {
        let total = self.bytes.len();
        let end = match self.offset.checked_add(len) {
            Some(end) => end,
            None => return Err(corruption("record offset overflow")),
        };
        if end > total {
            return Err(corruption("record is truncated"));
        }
        let slice = vstd::slice::slice_subrange(self.bytes, self.offset, end);
        self.offset = end;
        Ok(slice)
    }

    pub fn read_u8(&mut self) -> (r: DbResult<u8>)
        requires
            old(self).wf(),
        ensures
            final(self).wf(),
            final(self).bytes@ == old(self).bytes@,
            match p_u8(old(self).bytes@, old(self).offset as int) {
                Some((v, p)) => r == Ok::<u8, DbError>(v) && final(self).offset == p,
                None => r is Err && r->Err_0 is Corruption && final(self).offset == old(self).offset,
            },
    {
        let bytes = self.read_bytes(1)?;
        Ok(bytes[0])
    }

    pub fn read_u16(&mut self) -> (r: DbResult<u16>)
        requires
            old(self).wf(),
        ensures
            final(self).wf(),
            final(self).bytes@ == old(self).bytes@,
            match p_u16(old(self).bytes@, old(self).offset as int) {
                Some((v, p)) => r == Ok::<u16, DbError>(v) && final(self).offset == p,
                None => r is Err && r->Err_0 is Corruption && final(self).offset == old(self).offset,
            },
    {
        let ghost b = self.bytes@;
        let ghost o = self.offset as int;
        let bytes = self.read_bytes(2)?;
        let v = read_u16(bytes, 0);
        proof {
            assert(bytes@[0] == b[o] && bytes@[1] == b[o + 1]);
        }
        Ok(v)
    }

    pub fn read_u32(&mut self) -> (r: DbResult<u32>)
        requires
            old(self).wf(),
        ensures
            final(self).wf(),
            final(self).bytes@ == old(self).bytes@,
            match p_u32(old(self).bytes@, old(self).offset as int) {
                Some((v, p)) => r == Ok::<u32, DbError>(v) && final(self).offset == p,
                None => r is Err && r->Err_0 is Corruption && final(self).offset == old(self).offset,
            },
    {
        let ghost b = self.bytes@;
        let ghost o = self.offset as int;
        let bytes = self.read_bytes(4)?;
        let v = read_u32(bytes, 0);
        proof {
            assert(bytes@[0] == b[o] && bytes@[1] == b[o + 1]);
            assert(bytes@[2] == b[o + 2] && bytes@[3] == b[o + 3]);
        }
        Ok(v)
    }

    pub fn read_u64(&mut self) -> (r: DbResult<u64>)
        requires
            old(self).wf(),
        ensures
            final(self).wf(),
            final(self).bytes@ == old(self).bytes@,
            match p_u64(old(self).bytes@, old(self).offset as int) {
                Some((v, p)) => r == Ok::<u64, DbError>(v) && final(self).offset == p,
                None => r is Err && r->Err_0 is Corruption && final(self).offset == old(self).offset,
            },
    {
        let ghost b = self.bytes@;
        let ghost o = self.offset as int;
        let bytes = self.read_bytes(8)?;
        let v = read_u64(bytes, 0);
        proof {
            assert(bytes@[0] == b[o] && bytes@[1] == b[o + 1]);
            assert(bytes@[2] == b[o + 2] && bytes@[3] == b[o + 3]);
            assert(bytes@[4] == b[o + 4] && bytes@[5] == b[o + 5]);
            assert(bytes@[6] == b[o + 6] && bytes@[7] == b[o + 7]);
        }
        Ok(v)
    }

    /// Read a length-prefixed UTF-8 string.
    pub fn read_string(&mut self) -> (r: DbResult<String>)
        requires
            old(self).wf(),
        ensures
            final(self).wf(),
            final(self).bytes@ == old(self).bytes@,
            match p_string(old(self).bytes@, old(self).offset as int) {
                Some((s, p)) => r matches Ok(x) && x@ == s && final(self).offset == p,
                None => r is Err && r->Err_0 is Corruption,
            },
    {
        let len = self.read_u16()?;
        let bytes = self.read_bytes(len as usize)?;
        match string_from_utf8(bytes) {
            Some(s) => Ok(s),
            None => Err(corruption("record string is not valid UTF-8")),
        }
    }

    /// Every byte has been consumed.
    pub fn is_finished(&self) -> (r: bool)
        ensures
            r == (self.offset == self.bytes@.len()),
    {
        self.offset == self.bytes.len()
    }

    /// Fail unless every byte has been consumed.
    pub fn finish(&self) -> (r: DbResult<()>)
        ensures
            r is Ok <==> self.offset == self.bytes@.len(),
            r is Err ==> r->Err_0 is Corruption,
    {
        if self.offset == self.bytes.len() {
            Ok(())
        } else {
            Err(corruption("record has trailing bytes"))
        }
    }
}

// ---------------------------------------------------------------------------
// Writers.

/// Append raw bytes.
pub fn push_bytes(out: &mut Vec<u8>, data: &[u8])
    ensures
        final(out)@ == old(out)@ + data@,
{
    let mut i: usize = 0;
    while i < data.len()
        invariant
            i <= data@.len(),
            out@ == old(out)@ + data@.subrange(0, i as int),
        decreases data@.len() - i,
    {
        out.push(data[i]);
        i = i + 1;
        assert(out@ =~= old(out)@ + data@.subrange(0, i as int));
    }
    assert(data@.subrange(0, data@.len() as int) =~= data@);
}

/// Append a length-prefixed string; its UTF-8 form must fit the `u16` prefix.
pub fn push_string(out: &mut Vec<u8>, s: &str) -> (r: DbResult<()>)
    ensures
        r is Ok <==> string_encodable(s@),
        r is Ok ==> final(out)@ == old(out)@ + e_string(s@),
        r is Err ==> r->Err_0 is User && final(out)@ == old(out)@,
{
    let bytes = s.as_bytes();
    let n = bytes.len();
    if n > 65535 {
        return Err(user_error("string length does not fit into u16"));
    }
    push_u16(out, n as u16);
    push_bytes(out, bytes);
    assert(final(out)@ =~= old(out)@ + e_string(s@));
    Ok(())
}

/// Two strings hold the same characters (compared through their UTF-8 bytes).
pub fn str_eq(a: &str, b: &str) -> (r: bool)
    ensures
        r == (a@ == b@),
{
    let x = a.as_bytes();
    let y = b.as_bytes();
    proof {
        encode_utf8_decode_utf8(a@);
        encode_utf8_decode_utf8(b@);
    }
    if x.len() != y.len() {
        return false;
    }
    let mut i: usize = 0;
    while i < x.len()
        invariant
            i <= x@.len(),
            x@.len() == y@.len(),
            x@ == encode_utf8(a@),
            y@ == encode_utf8(b@),
            forall|j: int| 0 <= j < i ==> x@[j] == y@[j],
        decreases x@.len() - i,
    {
        if x[i] != y[i] {
            return false;
        }
        i = i + 1;
    }
    assert(x@ =~= y@);
    true
}

} // verus!
