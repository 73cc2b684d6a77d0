//! Fixed-size slotted pages.
//!
//! A page is `PAGE_SIZE` bytes: a 34-byte header, a slot directory of 6-byte
//! entries growing upwards from the header, and record payloads packed
//! downwards from the end of the page.

use vstd::prelude::*;
use vstd::arithmetic::div_mod::lemma_add_mod_noop;
use crate::bytes::{le16_bytes, le32_bytes, le64_bytes, le16, le32, le64, lemma_le_frame, same_outside, read_u16, read_u32, read_u64, write_u16, write_u32, write_u64};
use crate::types::{PageId, Lsn, SlotId, DbError, DbResult, user_error, corruption};

verus! {

/// Page size in bytes.
pub const PAGE_SIZE: usize = 4096;

pub const PAGE_MAGIC: u32 = 0x5244_4250;
pub const PAGE_VERSION: u16 = 1;
pub const HEADER_SIZE: usize = 34;
pub const SLOT_SIZE: usize = 6;

pub const OFF_MAGIC: usize = 0;
pub const OFF_VERSION: usize = 4;
pub const OFF_PAGE_TYPE: usize = 6;
pub const OFF_PAGE_ID: usize = 8;
pub const OFF_PAGE_LSN: usize = 16;
pub const OFF_FREE_START: usize = 24;
pub const OFF_FREE_END: usize = 26;
pub const OFF_SLOT_COUNT: usize = 28;
pub const OFF_CHECKSUM: usize = 30;

pub const SLOT_UNUSED: u16 = 0;
pub const SLOT_LIVE: u16 = 1;
pub const SLOT_DEAD: u16 = 2;

/// Known page kinds.
#[derive(Clone, Copy, Debug, PartialEq, Eq, Structural)]
pub enum PageType {
    /// File header page.
    FileHeader,
    /// Heap/table data page.
    Heap,
    /// Catalog page.
    Catalog,
    /// Free-space or allocator page.
    FreeMap,
    /// B+Tree index node page.
    Index,
}

/// On-disk code of a page type.
pub open spec fn page_type_code(t: PageType) -> u16 {
    match t {
        PageType::FileHeader => 1,
        PageType::Heap => 2,
        PageType::Catalog => 3,
        PageType::FreeMap => 4,
        PageType::Index => 5,
    }
}

/// Page type denoted by an on-disk code (meaningful for codes 1..=5).
pub open spec fn page_type_of_code(v: int) -> PageType {
    if v == 1 {
        PageType::FileHeader
    } else if v == 2 {
        PageType::Heap
    } else if v == 3 {
        PageType::Catalog
    } else if v == 4 {
        PageType::FreeMap
    } else {
        PageType::Index
    }
}

impl PageType {
    fn to_u16(self) -> (v: u16)
        ensures
            v == page_type_code(self),
    {
        match self {
            PageType::FileHeader => 1,
            PageType::Heap => 2,
            PageType::Catalog => 3,
            PageType::FreeMap => 4,
            PageType::Index => 5,
        }
    }

    fn from_u16(value: u16) -> (r: DbResult<PageType>)
        ensures
            1 <= value <= 5 <==> r is Ok,
            r matches Ok(t) ==> t == page_type_of_code(value as int) && page_type_code(t) == value,
            r is Err ==> r->Err_0 is Corruption,
    {
        match value {
            1 => Ok(PageType::FileHeader),
            2 => Ok(PageType::Heap),
            3 => Ok(PageType::Catalog),
            4 => Ok(PageType::FreeMap),
            5 => Ok(PageType::Index),
            _ => Err(corruption("unknown page type")),
        }
    }
}

/// Parsed page header.
#[derive(Clone, Copy, Debug, PartialEq, Eq, Structural)]
pub struct PageHeader {
    /// Page identifier.
    pub page_id: PageId,
    /// Last WAL record applied to the page.
    pub page_lsn: Lsn,
    /// Page kind.
    pub page_type: PageType,
    /// Start of free space after the slot directory.
    pub free_start: u16,
    /// End of free space before packed record bytes.
    pub free_end: u16,
    /// Number of slots in the page slot directory.
    pub slot_count: u16,
    /// Stored checksum.
    pub checksum: u32,
}

// ---------------------------------------------------------------------------
// The byte-level model of a page.

pub open spec fn raw_free_start(b: Seq<u8>) -> int {
    le16(b, OFF_FREE_START as int)
}

pub open spec fn raw_free_end(b: Seq<u8>) -> int {
    le16(b, OFF_FREE_END as int)
}

pub open spec fn raw_slot_count(b: Seq<u8>) -> int {
    le16(b, OFF_SLOT_COUNT as int)
}

pub open spec fn raw_page_type(b: Seq<u8>) -> int {
    le16(b, OFF_PAGE_TYPE as int)
}

pub open spec fn raw_page_id(b: Seq<u8>) -> int {
    le64(b, OFF_PAGE_ID as int)
}

pub open spec fn raw_page_lsn(b: Seq<u8>) -> int {
    le64(b, OFF_PAGE_LSN as int)
}

pub open spec fn raw_checksum(b: Seq<u8>) -> int {
    le32(b, OFF_CHECKSUM as int)
}

/// Byte position of the directory entry of slot `i`.
pub open spec fn slot_pos(i: int) -> int {
    HEADER_SIZE + i * SLOT_SIZE
}

pub open spec fn slot_offset_of(b: Seq<u8>, i: int) -> int {
    le16(b, slot_pos(i))
}

pub open spec fn slot_len_of(b: Seq<u8>, i: int) -> int {
    le16(b, slot_pos(i) + 2)
}

pub open spec fn slot_flags_of(b: Seq<u8>, i: int) -> int {
    le16(b, slot_pos(i) + 4)
}

/// Slot `i` holds a live record.
pub open spec fn slot_live(b: Seq<u8>, i: int) -> bool {
    slot_flags_of(b, i) == SLOT_LIVE
}

/// Slot `i` was deleted and may be reused.
pub open spec fn slot_dead(b: Seq<u8>, i: int) -> bool {
    slot_flags_of(b, i) == SLOT_DEAD
}

/// Payload bytes addressed by slot `i`.
pub open spec fn slot_record(b: Seq<u8>, i: int) -> Seq<u8> {
    b.subrange(slot_offset_of(b, i), slot_offset_of(b, i) + slot_len_of(b, i))
}

/// Header shape accepted by `Page::header`.
pub open spec fn header_ok(b: Seq<u8>) -> bool {
    &&& b.len() == PAGE_SIZE
    &&& le32(b, OFF_MAGIC as int) == PAGE_MAGIC
    &&& le16(b, OFF_VERSION as int) == PAGE_VERSION
    &&& raw_free_start(b) == slot_pos(raw_slot_count(b))
    &&& raw_free_start(b) <= raw_free_end(b)
    &&& raw_free_end(b) <= PAGE_SIZE
    &&& 1 <= raw_page_type(b) <= 5
}

/// Header fields as `Page::header` reports them.
pub open spec fn spec_header(b: Seq<u8>) -> PageHeader {
    PageHeader {
        page_id: PageId(raw_page_id(b) as u64),
        page_lsn: Lsn(raw_page_lsn(b) as u64),
        page_type: page_type_of_code(raw_page_type(b)),
        free_start: raw_free_start(b) as u16,
        free_end: raw_free_end(b) as u16,
        slot_count: raw_slot_count(b) as u16,
        checksum: raw_checksum(b) as u32,
    }
}

/// One directory entry is acceptable to `Page::validate`.
pub open spec fn slot_ok(b: Seq<u8>, i: int) -> bool {
    let f = slot_flags_of(b, i);
    &&& (f == SLOT_UNUSED || f == SLOT_LIVE || f == SLOT_DEAD)
    &&& f == SLOT_LIVE ==> raw_free_end(b) <= slot_offset_of(b, i) && slot_offset_of(b, i)
        + slot_len_of(b, i) <= PAGE_SIZE
}

pub open spec fn slots_ok(b: Seq<u8>) -> bool {
    forall|i: int| 0 <= i < raw_slot_count(b) ==> #[trigger] slot_ok(b, i)
}

/// Sum of all bytes, as a natural number.
pub open spec fn byte_sum(s: Seq<u8>) -> nat
    decreases s.len(),
{
    if s.len() == 0 {
        0
    } else {
        byte_sum(s.drop_last()) + s.last() as nat
    }
}

/// The page checksum of a byte sequence: the byte sum modulo 2^32.
pub open spec fn spec_checksum(s: Seq<u8>) -> u32 {
    (byte_sum(s) % 0x1_0000_0000) as u32
}

/// The bytes with the checksum field cleared.
pub open spec fn checksum_field_cleared(b: Seq<u8>) -> Seq<u8> {
    b.update(30, 0).update(31, 0).update(32, 0).update(33, 0)
}

/// A page's bytes before its checksum is computed: the header fields of an
/// empty page of id `id` and type `t`, and zeros elsewhere.
pub open spec fn fresh_page_cleared(id: u64, t: PageType) -> Seq<u8> {
    le32_bytes(PAGE_MAGIC) + le16_bytes(PAGE_VERSION) + le16_bytes(page_type_code(t)) + le64_bytes(id) + le64_bytes(0)
        + le16_bytes(HEADER_SIZE as u16) + le16_bytes(PAGE_SIZE as u16) + le16_bytes(0)
        + Seq::new((PAGE_SIZE - 30) as nat, |i: int| 0u8)
}

/// The bytes of a new, empty page of id `id` and type `t`: its header
/// fields, its checksum, and zeros everywhere else.
pub open spec fn fresh_page_bytes(id: u64, t: PageType) -> Seq<u8> {
    let c = fresh_page_cleared(id, t);
    c.subrange(0, 30) + le32_bytes(spec_checksum(c) as u32) + c.subrange(34, PAGE_SIZE as int)
}

/// The header writes of a new page over zeroed bytes leave its bytes before
/// the checksum.
proof fn lemma_fresh_page_cleared(b0: Seq<u8>, b1: Seq<u8>, b2: Seq<u8>, b3: Seq<u8>, b4: Seq<u8>, b5: Seq<u8>,
    b6: Seq<u8>, b7: Seq<u8>, b8: Seq<u8>, id: u64, t: PageType)
    requires
        b0 == Seq::new(PAGE_SIZE as nat, |i: int| 0u8),
        same_outside(b0, b1, 0, 4) && b1.subrange(0, 4) == le32_bytes(PAGE_MAGIC),
        same_outside(b1, b2, 4, 6) && b2.subrange(4, 6) == le16_bytes(PAGE_VERSION),
        same_outside(b2, b3, 6, 8) && b3.subrange(6, 8) == le16_bytes(page_type_code(t)),
        same_outside(b3, b4, 8, 16) && b4.subrange(8, 16) == le64_bytes(id),
        same_outside(b4, b5, 16, 24) && b5.subrange(16, 24) == le64_bytes(0),
        same_outside(b5, b6, 24, 26) && b6.subrange(24, 26) == le16_bytes(HEADER_SIZE as u16),
        same_outside(b6, b7, 26, 28) && b7.subrange(26, 28) == le16_bytes(PAGE_SIZE as u16),
        same_outside(b7, b8, 28, 30) && b8.subrange(28, 30) == le16_bytes(0),
    ensures
        b8 == fresh_page_cleared(id, t),
{
    let c = fresh_page_cleared(id, t);
    assert(c.len() == PAGE_SIZE);
    assert forall|i: int| 0 <= i < PAGE_SIZE implies #[trigger] b8[i] == c[i] by {
        if i < 4 {
            assert(b1.subrange(0, 4)[i] == b1[i]);
        } else if i < 6 {
            assert(b2.subrange(4, 6)[i - 4] == b2[i]);
        } else if i < 8 {
            assert(b3.subrange(6, 8)[i - 6] == b3[i]);
        } else if i < 16 {
            assert(b4.subrange(8, 16)[i - 8] == b4[i]);
        } else if i < 24 {
            assert(b5.subrange(16, 24)[i - 16] == b5[i]);
        } else if i < 26 {
            assert(b6.subrange(24, 26)[i - 24] == b6[i]);
        } else if i < 28 {
            assert(b7.subrange(26, 28)[i - 26] == b7[i]);
        } else if i < 30 {
            assert(b8.subrange(28, 30)[i - 28] == b8[i]);
        } else {
            assert(b0[i] == 0);
        }
    }
    assert(b8 =~= c);
}

/// Writing the checksum of the cleared bytes of a new page gives its bytes.
proof fn lemma_fresh_page_bytes(before: Seq<u8>, fin: Seq<u8>, id: u64, t: PageType)
    requires
        before == fresh_page_cleared(id, t),
        same_outside(before, fin, 30, 34),
        fin.subrange(30, 34) == le32_bytes(spec_checksum(checksum_field_cleared(before)) as u32),
    ensures
        fin == fresh_page_bytes(id, t),
{
    let c = fresh_page_cleared(id, t);
    assert(checksum_field_cleared(c) =~= c);
    let f = fresh_page_bytes(id, t);
    assert forall|i: int| 0 <= i < PAGE_SIZE implies #[trigger] fin[i] == f[i] by {
        if 30 <= i < 34 {
            assert(fin.subrange(30, 34)[i - 30] == fin[i]);
        }
    }
    assert(fin =~= f);
}

pub open spec fn checksum_ok(b: Seq<u8>) -> bool {
    raw_checksum(b) == spec_checksum(checksum_field_cleared(b))
}

/// Everything `Page::validate` checks.
pub open spec fn page_valid(b: Seq<u8>) -> bool {
    header_ok(b) && checksum_ok(b) && slots_ok(b)
}

/// Number of live slots among the first `n`.
pub open spec fn live_count(b: Seq<u8>, n: int) -> int
    decreases n,
{
    if n <= 0 {
        0
    } else {
        live_count(b, n - 1) + if slot_live(b, n - 1) { 1int } else { 0int }
    }
}

/// Total payload length of the live slots among the first `n`.
pub open spec fn live_total(b: Seq<u8>, n: int) -> int
    decreases n,
{
    if n <= 0 {
        0
    } else {
        live_total(b, n - 1) + if slot_live(b, n - 1) { slot_len_of(b, n - 1) } else { 0int }
    }
}

/// The live records of page image `b` add up to no more than the record
/// area from the free end to the end of the page.
pub open spec fn live_fits(b: Seq<u8>) -> bool {
    live_total(b, raw_slot_count(b)) <= PAGE_SIZE - raw_free_end(b)
}

/// Where slots other than `s` only lose liveness or keep their length, and
/// slot `s` grows by at most `l`, the live bytes among the first `m` slots
/// grow by at most `l`.
pub proof fn lemma_live_total_except(o: Seq<u8>, n: Seq<u8>, m: int, s: int, l: int)
    requires
        0 <= m,
        0 <= l,
        forall|j: int| 0 <= j < m && j != s && #[trigger] slot_live(n, j) ==> slot_live(o, j)
            && slot_len_of(n, j) == slot_len_of(o, j),
        0 <= s < m && slot_live(n, s) ==> slot_len_of(n, s) <= l + if slot_live(o, s) { slot_len_of(o, s) as int } else { 0int },
    ensures
        live_total(n, m) <= live_total(o, m) + if 0 <= s < m { l } else { 0int },
    decreases m,
{
    if m > 0 {
        lemma_live_total_except(o, n, m - 1, s, l);
    }
}

/// A record inside the page whose slot entry fits has the entry's length.
proof fn lemma_record_len(b: Seq<u8>, j: int)
    requires
        b.len() == PAGE_SIZE,
        slot_offset_of(b, j) + slot_len_of(b, j) <= PAGE_SIZE,
    ensures
        slot_record(b, j).len() == slot_len_of(b, j),
{
}

/// Inserting into a valid page whose live records fit keeps it valid with
/// its live records fitting.
pub proof fn lemma_insert_live_fits(o: Seq<u8>, n: Seq<u8>, s: int, record: Seq<u8>)
    requires
        page_valid(o),
        live_fits(o),
        insert_post(o, n, s, record),
        slot_len_of(n, s) == record.len(),
    ensures
        page_valid(n),
        live_fits(n),
{
    let co = raw_slot_count(o);
    lemma_first_dead_bound(o, co);
    assert forall|j: int| 0 <= j < co && j != s && #[trigger] slot_live(n, j) implies slot_live(o, j)
        && slot_len_of(n, j) == slot_len_of(o, j) by {
        assert(slot_flags_of(n, j) == slot_flags_of(o, j));
        assert(slot_ok(o, j));
        assert(slot_ok(n, j));
        lemma_record_len(o, j);
        lemma_record_len(n, j);
    }
    lemma_live_total_except(o, n, co, s, record.len() as int);
    if s == co {
        assert(raw_slot_count(n) == co + 1);
    }
}

/// Deleting a record from a valid page whose live records fit keeps it
/// valid with its live records fitting.
pub proof fn lemma_delete_live_fits(o: Seq<u8>, n: Seq<u8>, s: int, r: DbResult<bool>)
    requires
        page_valid(o),
        live_fits(o),
        delete_record_result(o, n, s, r),
    ensures
        page_valid(n),
        live_fits(n),
{
    if r == Ok::<bool, DbError>(true) {
        lemma_live_total_except(o, n, raw_slot_count(o), s, 0);
    }
}

/// In a valid page every live record lies inside the page.
pub proof fn lemma_valid_live_ends(b: Seq<u8>)
    requires
        page_valid(b),
    ensures
        live_ends_in_page(b, raw_slot_count(b)),
{
    assert forall|i: int| 0 <= i < raw_slot_count(b) && #[trigger] slot_live(b, i)
        implies slot_offset_of(b, i) + slot_len_of(b, i) <= PAGE_SIZE by {
        assert(slot_ok(b, i));
    }
}

/// Compacting a valid page whose live records fit leaves a valid page whose
/// live records fit.
pub proof fn lemma_compact_live_fits(o: Seq<u8>, n: Seq<u8>)
    requires
        page_valid(o),
        compact_post(o, n),
    ensures
        page_valid(n),
        live_fits(n),
{
    let co = raw_slot_count(o);
    assert forall|j: int| 0 <= j < co && j != -1 && #[trigger] slot_live(n, j) implies slot_live(o, j)
        && slot_len_of(n, j) == slot_len_of(o, j) by {
        assert(slot_flags_of(n, j) == slot_flags_of(o, j));
        assert(slot_ok(o, j));
        lemma_record_len(o, j);
        lemma_record_len(n, j);
    }
    lemma_live_total_except(o, n, co, -1, 0);
}

/// Every live slot among the first `n` addresses bytes inside the page.
pub open spec fn live_ends_in_page(b: Seq<u8>, n: int) -> bool {
    forall|i: int|
        0 <= i < n && #[trigger] slot_live(b, i) ==> slot_offset_of(b, i) + slot_len_of(b, i)
            <= PAGE_SIZE
}

/// The directory entries and live records of the first `n` slots agree.
pub open spec fn same_slots(a: Seq<u8>, b: Seq<u8>, n: int) -> bool {
    forall|i: int|
        0 <= i < n ==> {
            &&& #[trigger] slot_flags_of(b, i) == slot_flags_of(a, i)
            &&& slot_live(a, i) ==> slot_record(b, i) == slot_record(a, i)
        }
}


/// The lowest dead slot among the first `n`, if any.
pub open spec fn first_dead(b: Seq<u8>, n: int) -> Option<int>
    decreases n,
{
    if n <= 0 {
        None
    } else {
        match first_dead(b, n - 1) {
            Some(i) => Some(i),
            None => if slot_dead(b, n - 1) { Some(n - 1) } else { None },
        }
    }
}

/// The slot that `insert_record` fills: the lowest dead slot, else a new one.
pub open spec fn insert_target(b: Seq<u8>) -> int {
    match first_dead(b, raw_slot_count(b)) {
        Some(i) => i,
        None => raw_slot_count(b),
    }
}

/// Bytes `insert_record` needs for a record of length `len`.
pub open spec fn insert_needed(b: Seq<u8>, len: int) -> int {
    len + if first_dead(b, raw_slot_count(b)) is Some { 0int } else { SLOT_SIZE as int }
}

/// A record of length `len` fits without compaction.
pub open spec fn insert_fits(b: Seq<u8>, len: int) -> bool {
    insert_needed(b, len) <= raw_free_end(b) - raw_free_start(b)
}

pub proof fn lemma_first_dead_mono(b: Seq<u8>, m: int, n: int)
    requires
        m <= n,
        first_dead(b, m) is Some,
    ensures
        first_dead(b, n) == first_dead(b, m),
    decreases n - m,
{
    if m < n {
        lemma_first_dead_mono(b, m, n - 1);
    }
}

pub proof fn lemma_first_dead_bound(b: Seq<u8>, n: int)
    ensures
        first_dead(b, n) matches Some(i) ==> 0 <= i < n && slot_dead(b, i),
    decreases n,
{
    if n > 0 {
        lemma_first_dead_bound(b, n - 1);
    }
}

/// Two pages agree at every position from `HEADER_SIZE` on, except inside the
/// two given ranges.
pub open spec fn body_same_except(a: Seq<u8>, b: Seq<u8>, lo1: int, hi1: int, lo2: int, hi2: int) -> bool {
    &&& a.len() == b.len()
    &&& forall|p: int|
        HEADER_SIZE <= p < a.len() && !(lo1 <= p < hi1) && !(lo2 <= p < hi2) ==> #[trigger] b[p] == a[p]
}


/// What a successful `insert_record` leaves behind.
pub open spec fn insert_post(o: Seq<u8>, n: Seq<u8>, s: int, record: Seq<u8>) -> bool {
    &&& header_ok(n)
    &&& checksum_ok(n)
    &&& s == insert_target(o)
    &&& slot_live(n, s)
    &&& slot_record(n, s) == record
    &&& raw_slot_count(n) == if first_dead(o, raw_slot_count(o)) is Some { raw_slot_count(o) } else { raw_slot_count(o) + 1 }
    &&& raw_free_end(n) == raw_free_end(o) - record.len()
    &&& spec_header(n).page_id == spec_header(o).page_id
    &&& spec_header(n).page_lsn == spec_header(o).page_lsn
    &&& spec_header(n).page_type == spec_header(o).page_type
    &&& slots_ok(o) ==> slots_ok(n)
    &&& slots_ok(o) ==> forall|j: int| 0 <= j < raw_slot_count(o) && j != s ==> {
        &&& #[trigger] slot_flags_of(n, j) == slot_flags_of(o, j)
        &&& slot_live(o, j) ==> slot_record(n, j) =~= slot_record(o, j)
    }
}


#[verifier::spinoff_prover]
pub proof fn lemma_insert_others(o: Seq<u8>, n: Seq<u8>, s: int, new_offset: int, len: int)
    requires
        header_ok(o),
        slots_ok(o),
        n.len() == PAGE_SIZE,
        0 <= s <= raw_slot_count(o),
        0 <= len,
        new_offset == raw_free_end(o) - len,
        slot_pos(s) + SLOT_SIZE <= new_offset,
        raw_free_start(o) <= new_offset,
        body_same_except(o, n, slot_pos(s), slot_pos(s) + SLOT_SIZE, new_offset, raw_free_end(o)),
        raw_free_end(n) == new_offset,
        raw_slot_count(n) == raw_slot_count(o) || (raw_slot_count(n) == raw_slot_count(o) + 1 && s == raw_slot_count(o)),
        slot_flags_of(n, s) == SLOT_LIVE,
        slot_offset_of(n, s) == new_offset,
        slot_len_of(n, s) == len,
    ensures
        slots_ok(n),
        forall|j: int| 0 <= j < raw_slot_count(o) && j != s ==> {
            &&& #[trigger] slot_flags_of(n, j) == slot_flags_of(o, j)
            &&& slot_live(o, j) ==> slot_record(n, j) =~= slot_record(o, j)
        },
{
    let ep = slot_pos(s);
    assert forall|j: int| 0 <= j < raw_slot_count(o) && j != s implies {
        &&& #[trigger] slot_flags_of(n, j) == slot_flags_of(o, j)
        &&& slot_offset_of(n, j) == slot_offset_of(o, j)
        &&& slot_len_of(n, j) == slot_len_of(o, j)
        &&& slot_live(o, j) ==> slot_record(n, j) =~= slot_record(o, j)
    } by {
        assert(slot_pos(j) + SLOT_SIZE <= raw_free_start(o));
        assert(slot_pos(j) + SLOT_SIZE <= ep || ep + SLOT_SIZE <= slot_pos(j));
        assert forall|p: int| slot_pos(j) <= p < slot_pos(j) + SLOT_SIZE implies o[p] == n[p] by {}
        lemma_slot_frame(o, n, j);
        if slot_live(o, j) {
            assert(slot_ok(o, j));
            lemma_record_frame(o, n, j);
        }
    }
    assert forall|j: int| 0 <= j < raw_slot_count(n) implies #[trigger] slot_ok(n, j) by {
        if j != s {
            assert(slot_ok(o, j));
        }
    }
}

#[verifier::rlimit(50)]
#[verifier::spinoff_prover]
pub proof fn lemma_insert_post(
    o: Seq<u8>,
    b1: Seq<u8>,
    b2: Seq<u8>,
    b3: Seq<u8>,
    n: Seq<u8>,
    s: int,
    new_offset: int,
    record: Seq<u8>,
)
    requires
        o.len() == PAGE_SIZE,
        header_ok(o),
        insert_fits(o, record.len() as int),
        s == insert_target(o),
        first_dead(o, raw_slot_count(o)) matches Some(i) ==> 0 <= i < raw_slot_count(o) && slot_dead(o, i),
        new_offset == raw_free_end(o) - record.len(),
        same_outside(o, b1, new_offset, raw_free_end(o)),
        b1.subrange(new_offset, raw_free_end(o)) == record,
        same_outside(b1, b2, OFF_FREE_START as int, OFF_CHECKSUM as int),
        raw_free_end(b2) == new_offset,
        raw_slot_count(b2) == if first_dead(o, raw_slot_count(o)) is Some { raw_slot_count(o) } else { raw_slot_count(o) + 1 },
        raw_free_start(b2) == slot_pos(raw_slot_count(b2)),
        same_outside(b2, b3, slot_pos(s), slot_pos(s) + SLOT_SIZE),
        slot_offset_of(b3, s) == new_offset,
        slot_len_of(b3, s) == record.len(),
        slot_flags_of(b3, s) == SLOT_LIVE,
        same_outside(b3, n, OFF_CHECKSUM as int, OFF_CHECKSUM + 4),
        checksum_ok(n),
    ensures
        insert_post(o, n, s, record),
        slot_offset_of(n, s) == raw_free_end(n),
        slot_len_of(n, s) == record.len(),
{
    let fe = raw_free_end(o);
    let ep = slot_pos(s);
    assert(ep + SLOT_SIZE <= new_offset);
    assert(body_same_except(o, n, ep, ep + SLOT_SIZE, new_offset, fe));
    assert forall|p: int| 0 <= p < OFF_FREE_START implies n[p] == o[p] by {}
    assert forall|p: int| OFF_FREE_START <= p < OFF_CHECKSUM implies n[p] == b2[p] by {}
    lemma_le_frame(o, n, 0);
    lemma_le_frame(o, n, 8);
    lemma_le_frame(o, n, 16);
    assert(n[24] == b2[24] && n[25] == b2[25] && n[26] == b2[26] && n[27] == b2[27]);
    assert(n[28] == b2[28] && n[29] == b2[29]);
    assert(raw_free_end(n) == new_offset);
    assert(raw_slot_count(n) == raw_slot_count(b2));
    assert(raw_free_start(n) == raw_free_start(b2));
    assert forall|p: int| ep <= p < ep + SLOT_SIZE implies n[p] == b3[p] by {}
    lemma_slot_frame(b3, n, s);
    assert forall|q: int| 0 <= q < record.len() implies n[new_offset + q] == record[q] by {
        assert(b1[new_offset + q] == b1.subrange(new_offset, fe)[q]);
    }
    assert(slot_record(n, s) =~= record);
    if slots_ok(o) {
        lemma_insert_others(o, n, s, new_offset, record.len() as int);
    }
}


/// What `Page::read_record` returns for slot `s`.
pub open spec fn read_record_result(b: Seq<u8>, s: int, r: DbResult<Option<&[u8]>>) -> bool {
    if !header_ok(b) {
        r is Err && r->Err_0 is Corruption
    } else if s >= raw_slot_count(b) {
        r is Err && r->Err_0 is User
    } else if !slot_live(b, s) {
        r == Ok::<Option<&[u8]>, DbError>(None)
    } else if slot_offset_of(b, s) + slot_len_of(b, s) > PAGE_SIZE {
        r is Err && r->Err_0 is Corruption
    } else {
        r matches Ok(Some(rec)) && rec@ == slot_record(b, s)
    }
}

/// What `Page::delete_record` does to slot `s`.
pub open spec fn delete_record_result(o: Seq<u8>, n: Seq<u8>, s: int, r: DbResult<bool>) -> bool {
    if !header_ok(o) {
        r is Err && r->Err_0 is Corruption && n == o
    } else if s >= raw_slot_count(o) {
        r is Err && r->Err_0 is User && n == o
    } else if !slot_live(o, s) {
        r == Ok::<bool, DbError>(false) && n == o
    } else {
        &&& r == Ok::<bool, DbError>(true)
        &&& header_ok(n)
        &&& checksum_ok(n)
        &&& spec_header(n).page_id == spec_header(o).page_id
        &&& spec_header(n).page_lsn == spec_header(o).page_lsn
        &&& spec_header(n).page_type == spec_header(o).page_type
        &&& raw_slot_count(n) == raw_slot_count(o)
        &&& raw_free_start(n) == raw_free_start(o)
        &&& raw_free_end(n) == raw_free_end(o)
        &&& slot_dead(n, s)
        &&& slot_offset_of(n, s) == slot_offset_of(o, s)
        &&& slot_len_of(n, s) == slot_len_of(o, s)
        &&& slots_ok(o) ==> slots_ok(n)
        &&& forall|j: int| 0 <= j < raw_slot_count(o) && j != s ==> {
            &&& #[trigger] slot_flags_of(n, j) == slot_flags_of(o, j)
            &&& slot_offset_of(n, j) == slot_offset_of(o, j)
            &&& slot_len_of(n, j) == slot_len_of(o, j)
            &&& slots_ok(o) && slot_live(o, j) ==> slot_record(n, j) =~= slot_record(o, j)
        }
    }
}

#[verifier::spinoff_prover]
pub proof fn lemma_delete_post(o: Seq<u8>, b1: Seq<u8>, n: Seq<u8>, s: int)
    requires
        o.len() == PAGE_SIZE,
        header_ok(o),
        0 <= s < raw_slot_count(o),
        slot_live(o, s),
        same_outside(o, b1, slot_pos(s), slot_pos(s) + SLOT_SIZE),
        slot_offset_of(b1, s) == slot_offset_of(o, s),
        slot_len_of(b1, s) == slot_len_of(o, s),
        slot_flags_of(b1, s) == SLOT_DEAD,
        same_outside(b1, n, OFF_CHECKSUM as int, OFF_CHECKSUM + 4),
        checksum_ok(n),
    ensures
        delete_record_result(o, n, s, Ok(true)),
{
    let ep = slot_pos(s);
    assert forall|p: int| 0 <= p < HEADER_SIZE && !(OFF_CHECKSUM <= p < OFF_CHECKSUM + 4) implies n[p] == o[p] by {}
    lemma_le_frame(o, n, 0);
    lemma_le_frame(o, n, 8);
    lemma_le_frame(o, n, 16);
    assert(n[24] == o[24] && n[25] == o[25] && n[26] == o[26] && n[27] == o[27]);
    assert(n[28] == o[28] && n[29] == o[29]);
    assert forall|p: int| ep <= p < ep + SLOT_SIZE implies n[p] == b1[p] by {}
    lemma_slot_frame(b1, n, s);
    assert forall|j: int| 0 <= j < raw_slot_count(o) && j != s implies {
        &&& #[trigger] slot_flags_of(n, j) == slot_flags_of(o, j)
        &&& slot_offset_of(n, j) == slot_offset_of(o, j)
        &&& slot_len_of(n, j) == slot_len_of(o, j)
        &&& (slots_ok(o) && slot_live(o, j) ==> slot_record(n, j) == slot_record(o, j))
    } by {
        assert(slot_pos(j) + SLOT_SIZE <= ep || ep + SLOT_SIZE <= slot_pos(j));
        assert forall|p: int| slot_pos(j) <= p < slot_pos(j) + SLOT_SIZE implies o[p] == n[p] by {}
        lemma_slot_frame(o, n, j);
        if slots_ok(o) && slot_live(o, j) {
            assert(slot_ok(o, j));
            lemma_record_frame(o, n, j);
        }
    }
    if slots_ok(o) {
        assert forall|j: int| 0 <= j < raw_slot_count(n) implies #[trigger] slot_ok(n, j) by {
            if j != s {
                assert(slot_ok(o, j));
            }
        }
    }
}

/// Sum of the payload lengths of collected `(slot, bytes)` pairs.
pub open spec fn total_len(recs: Seq<(u16, Vec<u8>)>) -> int
    decreases recs.len(),
{
    if recs.len() == 0 {
        0
    } else {
        total_len(recs.drop_last()) + recs.last().1@.len()
    }
}

/// `recs` lists, in slot order, the live slots among the first `i` with their payloads.
pub open spec fn collected(b: Seq<u8>, recs: Seq<(u16, Vec<u8>)>, i: int) -> bool {
    &&& total_len(recs) == live_total(b, i)
    &&& forall|k: int| 0 <= k < recs.len() ==> {
        &&& (#[trigger] recs[k]).0 < i
        &&& slot_live(b, recs[k].0 as int)
        &&& recs[k].1@ =~= slot_record(b, recs[k].0 as int)
    }
    &&& forall|k1: int, k2: int| 0 <= k1 < k2 < recs.len() ==> (#[trigger] recs[k1]).0 < (#[trigger] recs[k2]).0
    &&& forall|j: int| 0 <= j < i && #[trigger] slot_live(b, j) ==> exists|k: int| 0 <= k < recs.len() && (#[trigger] recs[k]).0 == j
}

#[verifier::spinoff_prover]
pub proof fn lemma_collected_step(b: Seq<u8>, before: Seq<(u16, Vec<u8>)>, after: Seq<(u16, Vec<u8>)>, i: int)
    requires
        0 <= i,
        b.len() == PAGE_SIZE,
        slot_live(b, i) ==> 0 <= slot_offset_of(b, i) && slot_offset_of(b, i) + slot_len_of(b, i) <= PAGE_SIZE,
        collected(b, before, i),
        slot_live(b, i) ==> after.len() == before.len() + 1 && after.drop_last() == before
            && after.last().0 == i && after.last().1@ == slot_record(b, i),
        !slot_live(b, i) ==> after == before,
    ensures
        collected(b, after, i + 1),
{
    if slot_live(b, i) {
        assert forall|k: int| 0 <= k < before.len() implies after[k] == before[k] by {
            assert(after[k] == after.drop_last()[k]);
        }
        assert forall|j: int| 0 <= j < i + 1 && #[trigger] slot_live(b, j) implies exists|k: int| 0 <= k < after.len() && (#[trigger] after[k]).0 == j by {
            if j == i {
                assert(after[after.len() - 1].0 == j);
            } else {
                let k = choose|k: int| 0 <= k < before.len() && (#[trigger] before[k]).0 == j;
                assert(after[k].0 == j);
            }
        }
    }
}

pub proof fn lemma_total_step(recs: Seq<(u16, Vec<u8>)>, k: int)
    requires
        0 <= k < recs.len(),
    ensures
        total_len(recs.take(k + 1)) == total_len(recs.take(k)) + recs[k].1@.len(),
{
    assert(recs.take(k + 1).drop_last() =~= recs.take(k));
}

pub proof fn lemma_total_nonneg(recs: Seq<(u16, Vec<u8>)>)
    ensures
        0 <= total_len(recs),
    decreases recs.len(),
{
    if recs.len() > 0 {
        lemma_total_nonneg(recs.drop_last());
    }
}

pub proof fn lemma_total_prefix(recs: Seq<(u16, Vec<u8>)>, k: int)
    requires
        0 <= k <= recs.len(),
    ensures
        0 <= total_len(recs.take(k)) <= total_len(recs),
    decreases recs.len() - k,
{
    lemma_total_nonneg(recs.take(k));
    if k < recs.len() {
        lemma_total_step(recs, k);
        lemma_total_prefix(recs, k + 1);
    } else {
        assert(recs.take(k) =~= recs);
    }
}

pub proof fn lemma_collected_slot(b: Seq<u8>, recs: Seq<(u16, Vec<u8>)>, k: int)
    requires
        header_ok(b),
        collected(b, recs, raw_slot_count(b)),
        0 <= k < recs.len(),
    ensures
        slot_pos(recs[k].0 as int) + SLOT_SIZE <= raw_free_start(b),
{
    assert(recs[k].0 < raw_slot_count(b));
}

/// State of the packing loop of `compact` after `k` records.
pub open spec fn placed(cur: Seq<u8>, b: Seq<u8>, recs: Seq<(u16, Vec<u8>)>, starts: Seq<int>, k: int, free_end: int) -> bool {
    &&& cur.len() == PAGE_SIZE
    &&& placed_header(cur, b)
    &&& placed_zero(cur, b, free_end)
    &&& placed_slots(cur, b)
    &&& placed_recs(cur, recs, starts, k, free_end)
}

pub open spec fn placed_header(cur: Seq<u8>, b: Seq<u8>) -> bool {
    forall|p: int| 0 <= p < HEADER_SIZE ==> #[trigger] cur[p] == b[p]
}

pub open spec fn placed_zero(cur: Seq<u8>, b: Seq<u8>, free_end: int) -> bool {
    forall|p: int| raw_free_start(b) <= p < free_end ==> #[trigger] cur[p] == 0
}

pub open spec fn placed_slots(cur: Seq<u8>, b: Seq<u8>) -> bool {
    &&& forall|j: int| 0 <= j < raw_slot_count(b) && !slot_live(b, j) ==> {
        &&& #[trigger] slot_flags_of(cur, j) == slot_flags_of(b, j)
        &&& slot_offset_of(cur, j) == slot_offset_of(b, j)
        &&& slot_len_of(cur, j) == slot_len_of(b, j)
    }
    &&& forall|j: int| 0 <= j < raw_slot_count(b) && slot_live(b, j) ==> #[trigger] slot_flags_of(cur, j) == SLOT_LIVE
}

pub open spec fn placed_recs(cur: Seq<u8>, recs: Seq<(u16, Vec<u8>)>, starts: Seq<int>, k: int, free_end: int) -> bool {
    forall|m: int| 0 <= m < k ==> {
        &&& free_end <= #[trigger] starts[m]
        &&& starts[m] + recs[m].1@.len() <= PAGE_SIZE
        &&& slot_offset_of(cur, recs[m].0 as int) == starts[m]
        &&& slot_len_of(cur, recs[m].0 as int) == recs[m].1@.len()
        &&& cur.subrange(starts[m], starts[m] + recs[m].1@.len()) =~= recs[m].1@
    }
}

#[verifier::rlimit(60)]
#[verifier::spinoff_prover]
pub proof fn lemma_placed_step(
    b: Seq<u8>,
    recs: Seq<(u16, Vec<u8>)>,
    starts: Seq<int>,
    k: int,
    fe: int,
    cur: Seq<u8>,
    c1: Seq<u8>,
    c2: Seq<u8>,
)
    requires
        header_ok(b),
        collected(b, recs, raw_slot_count(b)),
        0 <= k < recs.len(),
        starts.len() == k,
        raw_free_start(b) <= fe,
        fe + recs[k].1@.len() <= PAGE_SIZE,
        placed(cur, b, recs, starts, k, fe + recs[k].1@.len()),
        same_outside(cur, c1, fe, fe + recs[k].1@.len()),
        c1.subrange(fe, fe + recs[k].1@.len()) == recs[k].1@,
        same_outside(c1, c2, slot_pos(recs[k].0 as int), slot_pos(recs[k].0 as int) + SLOT_SIZE),
        slot_pos(recs[k].0 as int) + SLOT_SIZE <= raw_free_start(b),
        slot_offset_of(c2, recs[k].0 as int) == fe,
        slot_len_of(c2, recs[k].0 as int) == recs[k].1@.len(),
        slot_flags_of(c2, recs[k].0 as int) == SLOT_LIVE,
    ensures
        placed(c2, b, recs, starts.push(fe), k + 1, fe),
{
    let s = recs[k].0 as int;
    let ep = slot_pos(s);
    let len = recs[k].1@.len() as int;
    let ns = starts.push(fe);
    assert(placed_header(c2, b));
    assert(placed_zero(c2, b, fe));
    assert forall|j: int| 0 <= j < raw_slot_count(b) && j != s implies {
        &&& slot_offset_of(c2, j) == slot_offset_of(cur, j)
        &&& slot_len_of(c2, j) == slot_len_of(cur, j)
        &&& #[trigger] slot_flags_of(c2, j) == slot_flags_of(cur, j)
    } by {
        assert(slot_pos(j) + SLOT_SIZE <= ep || ep + SLOT_SIZE <= slot_pos(j));
        assert forall|p: int| slot_pos(j) <= p < slot_pos(j) + SLOT_SIZE implies cur[p] == c2[p] by {}
        lemma_slot_frame(cur, c2, j);
    }
    assert forall|j: int| 0 <= j < raw_slot_count(b) && !slot_live(b, j) implies {
        &&& #[trigger] slot_flags_of(c2, j) == slot_flags_of(b, j)
        &&& slot_offset_of(c2, j) == slot_offset_of(b, j)
        &&& slot_len_of(c2, j) == slot_len_of(b, j)
    } by {
        assert(slot_live(b, s));
        assert(j != s);
        assert(slot_flags_of(cur, j) == slot_flags_of(b, j));
    }
    assert forall|j: int| 0 <= j < raw_slot_count(b) && slot_live(b, j) implies #[trigger] slot_flags_of(c2, j) == SLOT_LIVE by {
        if j != s {
            assert(slot_flags_of(cur, j) == SLOT_LIVE);
        }
    }
    assert(placed_slots(c2, b));
    assert forall|m: int| 0 <= m < k + 1 implies {
        &&& fe <= #[trigger] ns[m]
        &&& ns[m] + recs[m].1@.len() <= PAGE_SIZE
        &&& slot_offset_of(c2, recs[m].0 as int) == ns[m]
        &&& slot_len_of(c2, recs[m].0 as int) == recs[m].1@.len()
        &&& c2.subrange(ns[m], ns[m] + recs[m].1@.len()) == recs[m].1@
    } by {
        if m < k {
            assert(ns[m] == starts[m]);
            assert(recs[m].0 < recs[k].0);
            let lm = recs[m].1@.len() as int;
            assert forall|q: int| 0 <= q < lm implies #[trigger] c2[starts[m] + q] == cur[starts[m] + q] by {}
            assert(c2.subrange(ns[m], ns[m] + lm) =~= cur.subrange(starts[m], starts[m] + lm));
        } else {
            assert forall|q: int| 0 <= q < len implies #[trigger] c2[fe + q] == c1[fe + q] by {}
            assert(c2.subrange(fe, fe + len) =~= c1.subrange(fe, fe + len));
        }
    }
    assert(placed_recs(c2, recs, ns, k + 1, fe));
}

/// What a successful `compact` leaves behind.
pub open spec fn compact_post(o: Seq<u8>, n: Seq<u8>) -> bool {
    &&& header_ok(n)
    &&& checksum_ok(n)
    &&& spec_header(n).page_id == spec_header(o).page_id
    &&& spec_header(n).page_lsn == spec_header(o).page_lsn
    &&& spec_header(n).page_type == spec_header(o).page_type
    &&& raw_slot_count(n) == raw_slot_count(o)
    &&& raw_free_start(n) == raw_free_start(o)
    &&& raw_free_end(n) == PAGE_SIZE - live_total(o, raw_slot_count(o))
    &&& forall|p: int| raw_free_start(n) <= p < raw_free_end(n) ==> #[trigger] n[p] == 0
    &&& forall|j: int| 0 <= j < raw_slot_count(o) ==> {
        &&& #[trigger] slot_flags_of(n, j) == slot_flags_of(o, j)
        &&& slot_live(o, j) ==> slot_record(n, j) =~= slot_record(o, j)
            && raw_free_end(n) <= slot_offset_of(n, j)
            && slot_offset_of(n, j) + slot_len_of(n, j) <= PAGE_SIZE
    }
    &&& slots_ok(o) ==> slots_ok(n)
}

/// Where compaction of page image `o` into `n` puts things: every byte of
/// the header but the free-end and checksum fields is kept; live slot `j`
/// starts where the live records of slots `0..=j`, packed down from the end
/// of the page in slot order, leave off; dead and unused slots keep their
/// directory entries.
pub open spec fn compact_layout(o: Seq<u8>, n: Seq<u8>) -> bool {
    &&& forall|p: int| 0 <= p < HEADER_SIZE && !(OFF_FREE_END <= p < OFF_FREE_END + 2)
        && !(OFF_CHECKSUM <= p < OFF_CHECKSUM + 4) ==> #[trigger] n[p] == o[p]
    &&& forall|j: int| 0 <= j < raw_slot_count(o) ==> {
        &&& slot_live(o, j) ==> #[trigger] slot_offset_of(n, j) == PAGE_SIZE - live_total(o, j + 1)
        &&& !slot_live(o, j) ==> slot_offset_of(n, j) == slot_offset_of(o, j) && slot_len_of(n, j) == slot_len_of(o, j)
    }
}

/// Each collected record's prefix of the list holds exactly the live bytes of
/// the slots up to and including its own.
pub open spec fn prefix_totals(b: Seq<u8>, recs: Seq<(u16, Vec<u8>)>) -> bool {
    forall|m: int| 0 <= m < recs.len() ==> total_len(#[trigger] recs.take(m + 1)) == live_total(b, recs[m].0 + 1)
}

#[verifier::rlimit(60)]
#[verifier::spinoff_prover]
pub proof fn lemma_compact_layout(
    b: Seq<u8>,
    recs: Seq<(u16, Vec<u8>)>,
    starts: Seq<int>,
    c3: Seq<u8>,
    c4: Seq<u8>,
    n: Seq<u8>,
    fe: int,
)
    requires
        header_ok(b),
        collected(b, recs, raw_slot_count(b)),
        prefix_totals(b, recs),
        starts.len() == recs.len(),
        forall|m: int| 0 <= m < recs.len() ==> #[trigger] starts[m] == PAGE_SIZE - total_len(recs.take(m + 1)),
        fe == PAGE_SIZE - total_len(recs),
        raw_free_start(b) <= fe,
        placed(c3, b, recs, starts, recs.len() as int, fe),
        same_outside(c3, c4, OFF_FREE_END as int, OFF_FREE_END + 2),
        same_outside(c4, n, OFF_CHECKSUM as int, OFF_CHECKSUM + 4),
    ensures
        compact_layout(b, n),
{
    assert forall|p: int| 0 <= p < HEADER_SIZE && !(OFF_FREE_END <= p < OFF_FREE_END + 2)
        && !(OFF_CHECKSUM <= p < OFF_CHECKSUM + 4) implies #[trigger] n[p] == b[p] by {
        assert(c3[p] == b[p]);
    }
    assert forall|j: int| 0 <= j < raw_slot_count(b) implies {
        &&& slot_live(b, j) ==> #[trigger] slot_offset_of(n, j) == PAGE_SIZE - live_total(b, j + 1)
        &&& !slot_live(b, j) ==> slot_offset_of(n, j) == slot_offset_of(b, j) && slot_len_of(n, j) == slot_len_of(b, j)
    } by {
        assert forall|p: int| slot_pos(j) <= p < slot_pos(j) + SLOT_SIZE implies c3[p] == n[p] by {}
        lemma_slot_frame(c3, n, j);
        if slot_live(b, j) {
            let k = choose|k: int| 0 <= k < recs.len() && (#[trigger] recs[k]).0 == j;
            assert(starts[k] == PAGE_SIZE - total_len(recs.take(k + 1)));
            assert(total_len(recs.take(k + 1)) == live_total(b, recs[k].0 + 1));
        }
    }
}

#[verifier::rlimit(60)]
#[verifier::spinoff_prover]
pub proof fn lemma_compact_post(
    b: Seq<u8>,
    recs: Seq<(u16, Vec<u8>)>,
    starts: Seq<int>,
    c3: Seq<u8>,
    c4: Seq<u8>,
    n: Seq<u8>,
    fe: int,
)
    requires
        header_ok(b),
        collected(b, recs, raw_slot_count(b)),
        starts.len() == recs.len(),
        fe == PAGE_SIZE - total_len(recs),
        raw_free_start(b) <= fe,
        placed(c3, b, recs, starts, recs.len() as int, fe),
        same_outside(c3, c4, OFF_FREE_END as int, OFF_FREE_END + 2),
        le16(c4, OFF_FREE_END as int) == fe,
        same_outside(c4, n, OFF_CHECKSUM as int, OFF_CHECKSUM + 4),
        checksum_ok(n),
    ensures
        compact_post(b, n),
{
    lemma_total_nonneg(recs);
    assert forall|p: int| 0 <= p < HEADER_SIZE && !(OFF_FREE_END <= p < OFF_FREE_END + 2) && !(OFF_CHECKSUM <= p < OFF_CHECKSUM + 4) implies n[p] == b[p] by {
        assert(c3[p] == b[p]);
    }
    lemma_le_frame(b, n, 0);
    lemma_le_frame(b, n, 8);
    lemma_le_frame(b, n, 16);
    assert(n[24] == b[24] && n[25] == b[25] && n[28] == b[28] && n[29] == b[29]);
    assert(n[26] == c4[26] && n[27] == c4[27]);
    assert(raw_free_end(n) == fe);
    assert forall|j: int| 0 <= j < raw_slot_count(b) implies
        slot_offset_of(n, j) == slot_offset_of(c3, j) && slot_len_of(n, j) == slot_len_of(c3, j)
        && #[trigger] slot_flags_of(n, j) == slot_flags_of(c3, j) by {
        assert forall|p: int| slot_pos(j) <= p < slot_pos(j) + SLOT_SIZE implies c3[p] == n[p] by {}
        lemma_slot_frame(c3, n, j);
    }
    assert forall|j: int| 0 <= j < raw_slot_count(b) implies {
        &&& #[trigger] slot_flags_of(n, j) == slot_flags_of(b, j)
        &&& slot_live(b, j) ==> slot_record(n, j) == slot_record(b, j)
            && raw_free_end(n) <= slot_offset_of(n, j)
            && slot_offset_of(n, j) + slot_len_of(n, j) <= PAGE_SIZE
    } by {
        if slot_live(b, j) {
            let k = choose|k: int| 0 <= k < recs.len() && (#[trigger] recs[k]).0 == j;
            assert(fe <= starts[k]);
            let l = recs[k].1@.len() as int;
            assert forall|q: int| 0 <= q < l implies #[trigger] n[starts[k] + q] == c3[starts[k] + q] by {}
            assert(slot_record(n, j) =~= c3.subrange(starts[k], starts[k] + l));
        }
    }
    if slots_ok(b) {
        assert forall|j: int| 0 <= j < raw_slot_count(n) implies #[trigger] slot_ok(n, j) by {
            assert(slot_ok(b, j));
        }
    }
}


pub proof fn lemma_byte_sum_step(s: Seq<u8>, i: int)
    requires
        0 <= i < s.len(),
    ensures
        byte_sum(s.take(i + 1)) == byte_sum(s.take(i)) + s[i],
{
    assert(s.take(i + 1).drop_last() =~= s.take(i));
}

/// Fields of an entry and its record are determined by the bytes they cover.
pub proof fn lemma_slot_frame(a: Seq<u8>, b: Seq<u8>, i: int)
    requires
        a.len() == PAGE_SIZE,
        b.len() == PAGE_SIZE,
        0 <= i,
        slot_pos(i) + SLOT_SIZE <= PAGE_SIZE,
        forall|p: int| slot_pos(i) <= p < slot_pos(i) + SLOT_SIZE ==> a[p] == b[p],
    ensures
        slot_offset_of(a, i) == slot_offset_of(b, i),
        slot_len_of(a, i) == slot_len_of(b, i),
        slot_flags_of(a, i) == slot_flags_of(b, i),
{
    let p = slot_pos(i);
    assert(a[p] == b[p]);
    assert(a[p + 1] == b[p + 1]);
    assert(a[p + 2] == b[p + 2]);
    assert(a[p + 3] == b[p + 3]);
    assert(a[p + 4] == b[p + 4]);
    assert(a[p + 5] == b[p + 5]);
}

pub proof fn lemma_record_frame(a: Seq<u8>, b: Seq<u8>, i: int)
    requires
        a.len() == PAGE_SIZE,
        b.len() == PAGE_SIZE,
        0 <= slot_offset_of(a, i),
        slot_offset_of(a, i) + slot_len_of(a, i) <= PAGE_SIZE,
        slot_offset_of(a, i) == slot_offset_of(b, i),
        slot_len_of(a, i) == slot_len_of(b, i),
        forall|p: int|
            slot_offset_of(a, i) <= p < slot_offset_of(a, i) + slot_len_of(a, i) ==> a[p] == b[p],
    ensures
        slot_record(a, i) == slot_record(b, i),
{
    assert(slot_record(a, i) =~= slot_record(b, i));
}

/// Page checksum: the wrapping byte sum of `bytes`.
pub fn checksum(bytes: &[u8]) -> (c: u32)
    ensures
        c == spec_checksum(bytes@),
{
    let n = bytes.len();
    let mut acc: u32 = 0;
    let mut i: usize = 0;
    while i < n
        invariant
            n == bytes@.len(),
            i <= n,
            acc == byte_sum(bytes@.take(i as int)) % 0x1_0000_0000,
        decreases n - i,
    {
        proof {
            lemma_byte_sum_step(bytes@, i as int);
            lemma_add_mod_noop(byte_sum(bytes@.take(i as int)) as int, bytes@[i as int] as int, 0x1_0000_0000);
        }
        acc = ((acc as u64 + bytes[i] as u64) % 0x1_0000_0000) as u32;
        i = i + 1;
    }
    assert(bytes@.take(n as int) =~= bytes@);
    acc
}

/// Validate a stored checksum against arbitrary bytes.
pub fn validate_checksum(bytes: &[u8], expected: u32) -> (r: DbResult<()>)
    ensures
        r is Ok <==> spec_checksum(bytes@) == expected,
        r is Err ==> r->Err_0 is Corruption,
{
    let actual = checksum(bytes);
    if actual == expected {
        Ok(())
    } else {
        Err(corruption("page checksum mismatch"))
    }
}

/// Validate the checksum embedded in a formatted page.
pub fn validate_page_checksum(bytes: &[u8]) -> (r: DbResult<()>)
    requires
        bytes@.len() == PAGE_SIZE,
    ensures
        r is Ok <==> checksum_ok(bytes@),
        r is Err ==> r->Err_0 is Corruption,
{
    let expected = read_u32(bytes, OFF_CHECKSUM);
    let mut copy = vstd::slice::slice_to_vec(bytes);
    write_u32(&mut copy, OFF_CHECKSUM, 0);
    assert(copy@ =~= checksum_field_cleared(bytes@));
    validate_checksum(copy.as_slice(), expected)
}

#[derive(Clone, Copy, Debug, PartialEq, Eq, Structural)]
struct SlotEntry {
    offset: u16,
    len: u16,
    flags: u16,
}

impl SlotEntry {
    fn is_live(self) -> (b: bool)
        ensures
            b == (self.flags == SLOT_LIVE),
    {
        self.flags == SLOT_LIVE
    }

    fn is_dead(self) -> (b: bool)
        ensures
            b == (self.flags == SLOT_DEAD),
    {
        self.flags == SLOT_DEAD
    }
}

/// Byte position of the directory entry of a slot, if it fits in the page.
fn slot_offset(slot_index: u16) -> (r: DbResult<usize>)
    ensures
        r is Ok <==> slot_pos(slot_index as int) + SLOT_SIZE <= PAGE_SIZE,
        r matches Ok(p) ==> p == slot_pos(slot_index as int),
        r is Err ==> r->Err_0 is Corruption,
{
    let offset = HEADER_SIZE + (slot_index as usize) * SLOT_SIZE;
    if offset + SLOT_SIZE > PAGE_SIZE {
        return Err(corruption("slot is outside page"));
    }
    Ok(offset)
}

/// In-memory fixed-size page buffer.
#[derive(Clone, Debug)]
pub struct Page {
    bytes: Vec<u8>,
}

impl View for Page {
    type V = Seq<u8>;

    closed spec fn view(&self) -> Seq<u8> {
        self.bytes@
    }
}

impl Page {
    /// The buffer holds exactly one page.
    pub open spec fn wf(&self) -> bool {
        self@.len() == PAGE_SIZE
    }

    /// Create a zeroed page for low-level byte experiments.
    pub fn zeroed() -> (p: Self)
        ensures
            p.wf(),
            p@ == Seq::new(PAGE_SIZE as nat, |i: int| 0u8),
    {
        let p = Page { bytes: vec![0u8; PAGE_SIZE] };
        assert(p@ =~= Seq::new(PAGE_SIZE as nat, |i: int| 0u8));
        p
    }

    /// Copy of this page (same bytes).
    pub fn duplicate(&self) -> (p: Self)
        ensures
            p@ == self@,
    {
        Page { bytes: vstd::slice::slice_to_vec(self.bytes.as_slice()) }
    }

    /// Borrow raw page bytes.
    pub fn as_bytes(&self) -> (r: &[u8])
        ensures
            r@ == self@,
    {
        self.bytes.as_slice()
    }

    /// Mutably borrow raw page bytes.
    ///
    /// Callers that mutate raw bytes are responsible for restoring invariants.
    pub fn as_mut_bytes(&mut self) -> (r: &mut [u8])
        ensures
            r@ == old(self)@,
            final(r)@ == final(self)@,
    {
        self.bytes.as_mut_slice()
    }

    /// Parse and validate a page copied from storage.
    pub fn from_bytes(bytes: Vec<u8>) -> (r: DbResult<Self>)
        requires
            bytes@.len() == PAGE_SIZE,
        ensures
            r is Ok <==> page_valid(bytes@),
            r matches Ok(p) ==> p@ == bytes@ && p.wf(),
            r is Err ==> r->Err_0 is Corruption,
    {
        let page = Page { bytes };
        page.validate()?;
        Ok(page)
    }

    fn slot_entry(&self, slot_index: u16) -> (e: SlotEntry)
        requires
            self.wf(),
            slot_pos(slot_index as int) + SLOT_SIZE <= PAGE_SIZE,
        ensures
            e.offset == slot_offset_of(self@, slot_index as int),
            e.len == slot_len_of(self@, slot_index as int),
            e.flags == slot_flags_of(self@, slot_index as int),
    {
        let offset = HEADER_SIZE + (slot_index as usize) * SLOT_SIZE;
        SlotEntry {
            offset: read_u16(self.bytes.as_slice(), offset),
            len: read_u16(self.bytes.as_slice(), offset + 2),
            flags: read_u16(self.bytes.as_slice(), offset + 4),
        }
    }

    fn write_slot_entry(&mut self, slot_index: u16, slot: SlotEntry)
        requires
            old(self).wf(),
            slot_pos(slot_index as int) + SLOT_SIZE <= PAGE_SIZE,
        ensures
            final(self).wf(),
            same_outside(old(self)@, final(self)@, slot_pos(slot_index as int), slot_pos(slot_index as int) + SLOT_SIZE),
            slot_offset_of(final(self)@, slot_index as int) == slot.offset,
            slot_len_of(final(self)@, slot_index as int) == slot.len,
            slot_flags_of(final(self)@, slot_index as int) == slot.flags,
    {
        let offset = HEADER_SIZE + (slot_index as usize) * SLOT_SIZE;
        let ghost b0 = self.bytes@;
        write_u16(&mut self.bytes, offset, slot.offset);
        let ghost b1 = self.bytes@;
        write_u16(&mut self.bytes, offset + 2, slot.len);
        let ghost b2 = self.bytes@;
        write_u16(&mut self.bytes, offset + 4, slot.flags);
        proof {
            let b3 = self.bytes@;
            let p = offset as int;
            assert(b3[p] == b1[p] && b3[p + 1] == b1[p + 1]);
            assert(b3[p + 2] == b2[p + 2] && b3[p + 3] == b2[p + 3]);
        }
    }

    /// Recompute and store the page checksum.
    pub fn refresh_checksum(&mut self)
        requires
            old(self).wf(),
        ensures
            final(self).wf(),
            same_outside(old(self)@, final(self)@, OFF_CHECKSUM as int, OFF_CHECKSUM + 4),
            checksum_ok(final(self)@),
            final(self)@.subrange(OFF_CHECKSUM as int, OFF_CHECKSUM + 4)
                == le32_bytes(spec_checksum(checksum_field_cleared(old(self)@)) as u32),
    {
        write_u32(&mut self.bytes, OFF_CHECKSUM, 0);
        let ghost mid = self.bytes@;
        let value = checksum(self.bytes.as_slice());
        write_u32(&mut self.bytes, OFF_CHECKSUM, value);
        proof {
            let b = self.bytes@;
            assert(mid[30] == 0 && mid[31] == 0 && mid[32] == 0 && mid[33] == 0);
            assert(checksum_field_cleared(b) =~= mid);
            assert(checksum_field_cleared(old(self)@) =~= mid);
        }
    }

    /// Create a formatted, empty slotted page.
    pub fn new(page_id: PageId, page_type: PageType) -> (p: Self)
        ensures
            p.wf(),
            page_valid(p@),
            spec_header(p@).page_id == page_id,
            spec_header(p@).page_lsn == Lsn(0),
            spec_header(p@).page_type == page_type,
            raw_slot_count(p@) == 0,
            raw_free_start(p@) == HEADER_SIZE,
            raw_free_end(p@) == PAGE_SIZE,
            live_fits(p@),
            forall|i: int| HEADER_SIZE <= i < PAGE_SIZE ==> #[trigger] p@[i] == 0,
            p@ == fresh_page_bytes(page_id.0, page_type),
    {
        let mut page = Page::zeroed();
        let ghost b0 = page.bytes@;
        write_u32(&mut page.bytes, OFF_MAGIC, PAGE_MAGIC);
        let ghost b1 = page.bytes@;
        write_u16(&mut page.bytes, OFF_VERSION, PAGE_VERSION);
        let ghost b2 = page.bytes@;
        write_u16(&mut page.bytes, OFF_PAGE_TYPE, page_type.to_u16());
        let ghost b3 = page.bytes@;
        write_u64(&mut page.bytes, OFF_PAGE_ID, page_id.0);
        let ghost b4 = page.bytes@;
        write_u64(&mut page.bytes, OFF_PAGE_LSN, 0);
        let ghost b5 = page.bytes@;
        write_u16(&mut page.bytes, OFF_FREE_START, HEADER_SIZE as u16);
        let ghost b6 = page.bytes@;
        write_u16(&mut page.bytes, OFF_FREE_END, PAGE_SIZE as u16);
        let ghost b7 = page.bytes@;
        write_u16(&mut page.bytes, OFF_SLOT_COUNT, 0);
        let ghost before = page.bytes@;
        proof {
            lemma_fresh_page_cleared(b0, b1, b2, b3, b4, b5, b6, b7, before, page_id.0, page_type);
        }
        page.refresh_checksum();
        proof {
            lemma_le_frame(before, page.bytes@, 0);
            lemma_le_frame(before, page.bytes@, 8);
            lemma_le_frame(before, page.bytes@, 16);
            assert(before[24] == page.bytes@[24] && before[25] == page.bytes@[25]);
            assert(before[26] == page.bytes@[26] && before[27] == page.bytes@[27]);
            assert(before[28] == page.bytes@[28] && before[29] == page.bytes@[29]);
            assert forall|i: int| HEADER_SIZE <= i < PAGE_SIZE implies #[trigger] page.bytes@[i] == 0 by {
                assert(page.bytes@[i] == before[i]);
            }
            lemma_fresh_page_bytes(before, page.bytes@, page_id.0, page_type);
        }
        page
    }

    /// Return parsed header fields after validating the header shape.
    pub fn header(&self) -> (r: DbResult<PageHeader>)
        requires
            self.wf(),
        ensures
            r is Ok <==> header_ok(self@),
            r matches Ok(h) ==> h == spec_header(self@),
            r is Err ==> r->Err_0 is Corruption,
    {
        let b = self.bytes.as_slice();
        if read_u32(b, OFF_MAGIC) != PAGE_MAGIC {
            return Err(corruption("invalid page magic"));
        }
        let version = read_u16(b, OFF_VERSION);
        if version != PAGE_VERSION {
            return Err(corruption("unsupported page version"));
        }
        let free_start = read_u16(b, OFF_FREE_START);
        let free_end = read_u16(b, OFF_FREE_END);
        let slot_count = read_u16(b, OFF_SLOT_COUNT);
        let min_free_start = HEADER_SIZE + (slot_count as usize) * SLOT_SIZE;
        if free_start as usize != min_free_start {
            return Err(corruption("invalid free_start"));
        }
        if free_start > free_end || free_end as usize > PAGE_SIZE {
            return Err(corruption("invalid free space boundaries"));
        }
        let page_type = PageType::from_u16(read_u16(b, OFF_PAGE_TYPE))?;
        Ok(PageHeader {
            page_id: PageId(read_u64(b, OFF_PAGE_ID)),
            page_lsn: Lsn(read_u64(b, OFF_PAGE_LSN)),
            page_type,
            free_start,
            free_end,
            slot_count,
            checksum: read_u32(b, OFF_CHECKSUM),
        })
    }

    /// Validate header, checksum and every live slot boundary.
    pub fn validate(&self) -> (r: DbResult<()>)
        requires
            self.wf(),
        ensures
            r is Ok <==> page_valid(self@),
            r is Err ==> r->Err_0 is Corruption,
    {
        let header = self.header()?;
        validate_page_checksum(self.bytes.as_slice())?;
        let count = header.slot_count;
        let mut slot_index: u16 = 0;
        while slot_index < count
            invariant
                self.wf(),
                header_ok(self@),
                checksum_ok(self@),
                count == raw_slot_count(self@),
                header.free_end == raw_free_end(self@),
                slot_index <= count,
                forall|j: int| 0 <= j < slot_index ==> #[trigger] slot_ok(self@, j),
            decreases count - slot_index,
        {
            let slot = self.slot_entry(slot_index);
            if slot.flags != SLOT_UNUSED && slot.flags != SLOT_LIVE && slot.flags != SLOT_DEAD {
                assert(!slot_ok(self@, slot_index as int));
                return Err(corruption("invalid slot flags"));
            }
            if slot.is_live() {
                let start = slot.offset as usize;
                let end = start + slot.len as usize;
                if start < header.free_end as usize || end > PAGE_SIZE {
                    assert(!slot_ok(self@, slot_index as int));
                    return Err(corruption("slot points outside record area"));
                }
            }
            slot_index = slot_index + 1;
        }
        Ok(())
    }

    fn find_dead_slot(&self, slot_count: u16) -> (r: Option<u16>)
        requires
            self.wf(),
            slot_pos(slot_count as int) <= PAGE_SIZE,
        ensures
            match r {
                Some(i) => first_dead(self@, slot_count as int) == Some(i as int),
                None => first_dead(self@, slot_count as int) is None,
            },
    {
        let mut slot_index: u16 = 0;
        while slot_index < slot_count
            invariant
                self.wf(),
                slot_pos(slot_count as int) <= PAGE_SIZE,
                slot_index <= slot_count,
                first_dead(self@, slot_index as int) is None,
            decreases slot_count - slot_index,
        {
            if self.slot_entry(slot_index).is_dead() {
                proof {
                    lemma_first_dead_mono(self@, slot_index as int + 1, slot_count as int);
                }
                return Some(slot_index);
            }
            slot_index = slot_index + 1;
        }
        None
    }

    /// Copy `record` into the page at `at`.
    fn copy_into(&mut self, at: usize, record: &[u8])
        requires
            old(self).wf(),
            at + record@.len() <= PAGE_SIZE,
        ensures
            final(self).wf(),
            same_outside(old(self)@, final(self)@, at as int, at + record@.len()),
            final(self)@.subrange(at as int, at + record@.len()) == record@,
    {
        let len = record.len();
        let ghost o = self.bytes@;
        let mut k: usize = 0;
        while k < len
            invariant
                self.bytes@.len() == PAGE_SIZE,
                o.len() == PAGE_SIZE,
                len == record@.len(),
                at + len <= PAGE_SIZE,
                k <= len,
                forall|q: int| 0 <= q < k ==> self.bytes@[at + q] == record@[q],
                forall|p: int| 0 <= p < PAGE_SIZE && !(at <= p < at + k) ==> #[trigger] self.bytes@[p] == o[p],
            decreases len - k,
        {
            self.bytes.set(at + k, record[k]);
            k = k + 1;
        }
        assert(self.bytes@.subrange(at as int, at + len) =~= record@);
    }

    /// Overwrite the free-space boundaries and slot count (bytes 24..30).
    fn set_layout(&mut self, free_start: u16, free_end: u16, slot_count: u16)
        requires
            old(self).wf(),
        ensures
            final(self).wf(),
            same_outside(old(self)@, final(self)@, OFF_FREE_START as int, OFF_CHECKSUM as int),
            raw_free_start(final(self)@) == free_start,
            raw_free_end(final(self)@) == free_end,
            raw_slot_count(final(self)@) == slot_count,
    {
        let ghost b0 = self.bytes@;
        write_u16(&mut self.bytes, OFF_FREE_START, free_start);
        let ghost b1 = self.bytes@;
        write_u16(&mut self.bytes, OFF_FREE_END, free_end);
        let ghost b2 = self.bytes@;
        write_u16(&mut self.bytes, OFF_SLOT_COUNT, slot_count);
        proof {
            let b3 = self.bytes@;
            assert(b3[24] == b1[24] && b3[25] == b1[25]);
            assert(b3[26] == b2[26] && b3[27] == b2[27]);
        }
    }

    /// Insert variable-size record bytes and return a stable slot id.
    ///
    /// The lowest dead slot is reused; otherwise a new slot is appended to the
    /// directory. Record bytes are packed just below the current free end.
    pub fn insert_record(&mut self, record: &[u8]) -> (r: DbResult<SlotId>)
        requires
            old(self).wf(),
        ensures
            final(self).wf(),
            record@.len() > u16::MAX ==> r is Err && r->Err_0 is User,
            record@.len() <= u16::MAX && !header_ok(old(self)@) ==> r is Err && r->Err_0 is Corruption,
            record@.len() <= u16::MAX && header_ok(old(self)@) ==> (r is Ok <==> insert_fits(old(self)@, record@.len() as int)),
            r is Err && header_ok(old(self)@) ==> r->Err_0 is User,
            r is Err ==> final(self)@ == old(self)@,
            r matches Ok(slot) ==> insert_post(old(self)@, final(self)@, slot.0 as int, record@),
            r matches Ok(slot) ==> slot_offset_of(final(self)@, slot.0 as int) == raw_free_end(final(self)@)
                && slot_len_of(final(self)@, slot.0 as int) == record@.len(),
            page_valid(old(self)@) && live_fits(old(self)@) ==> page_valid(final(self)@) && live_fits(final(self)@),
    {
        let len = record.len();
        if len > 65535 {
            return Err(user_error("record is larger than u16 length limit"));
        }
        let header = self.header()?;
        let count = header.slot_count;
        let reusable_slot = self.find_dead_slot(count);
        let slot_bytes: usize = if reusable_slot.is_none() { SLOT_SIZE } else { 0 };
        let needed = len + slot_bytes;
        let free_bytes = (header.free_end - header.free_start) as usize;
        if needed > free_bytes {
            return Err(user_error("not enough free page space"));
        }
        proof { lemma_first_dead_bound(self@, count as int); }
        let ghost o = self@;
        let fe = header.free_end as usize;
        let new_offset = fe - len;
        self.copy_into(new_offset, record);
        let ghost b1 = self@;
        let (slot_index, new_count): (u16, u16) = match reusable_slot {
            Some(index) => (index, count),
            None => (count, count + 1),
        };
        let new_free_start = (HEADER_SIZE + (new_count as usize) * SLOT_SIZE) as u16;
        self.set_layout(new_free_start, new_offset as u16, new_count);
        let ghost b2 = self@;
        self.write_slot_entry(
            slot_index,
            SlotEntry { offset: new_offset as u16, len: len as u16, flags: SLOT_LIVE },
        );
        let ghost b3 = self@;
        self.refresh_checksum();
        proof {
            lemma_insert_post(o, b1, b2, b3, self@, slot_index as int, new_offset as int, record@);
            if page_valid(o) && live_fits(o) {
                lemma_insert_live_fits(o, self@, slot_index as int, record@);
            }
        }
        Ok(SlotId(slot_index))
    }

    /// Read a record by slot id. Dead or unused slots return `Ok(None)`.
    pub fn read_record(&self, slot_id: SlotId) -> (r: DbResult<Option<&[u8]>>)
        requires
            self.wf(),
        ensures
            read_record_result(self@, slot_id.0 as int, r),
    {
        let header = self.header()?;
        if slot_id.0 >= header.slot_count {
            return Err(user_error("slot is out of range"));
        }
        let slot = self.slot_entry(slot_id.0);
        if !slot.is_live() {
            return Ok(None);
        }
        let start = slot.offset as usize;
        let end = start + slot.len as usize;
        if end > PAGE_SIZE {
            return Err(corruption("slot points past page end"));
        }
        Ok(Some(vstd::slice::slice_subrange(self.bytes.as_slice(), start, end)))
    }

    /// Mark a slot as dead. Returns `false` if the slot was already dead or unused.
    pub fn delete_record(&mut self, slot_id: SlotId) -> (r: DbResult<bool>)
        requires
            old(self).wf(),
        ensures
            final(self).wf(),
            delete_record_result(old(self)@, final(self)@, slot_id.0 as int, r),
            page_valid(old(self)@) && live_fits(old(self)@) ==> page_valid(final(self)@) && live_fits(final(self)@),
    {
        let header = self.header()?;
        if slot_id.0 >= header.slot_count {
            return Err(user_error("slot is out of range"));
        }
        let slot = self.slot_entry(slot_id.0);
        if !slot.is_live() {
            return Ok(false);
        }
        let ghost o = self@;
        self.write_slot_entry(slot_id.0, SlotEntry { offset: slot.offset, len: slot.len, flags: SLOT_DEAD });
        let ghost b1 = self@;
        self.refresh_checksum();
        proof {
            lemma_delete_post(o, b1, self@, slot_id.0 as int);
            if page_valid(o) && live_fits(o) {
                lemma_delete_live_fits(o, self@, slot_id.0 as int, Ok::<bool, DbError>(true));
            }
        }
        Ok(true)
    }

    /// Number of live records currently stored in the page.
    pub fn live_record_count(&self) -> (r: DbResult<u16>)
        requires
            self.wf(),
        ensures
            r is Ok <==> header_ok(self@),
            r matches Ok(c) ==> c == live_count(self@, raw_slot_count(self@)),
            r is Err ==> r->Err_0 is Corruption,
    {
        let header = self.header()?;
        let mut count: u16 = 0;
        let mut slot_index: u16 = 0;
        while slot_index < header.slot_count
            invariant
                self.wf(),
                header_ok(self@),
                header.slot_count == raw_slot_count(self@),
                slot_index <= header.slot_count,
                count == live_count(self@, slot_index as int),
                count <= slot_index,
            decreases header.slot_count - slot_index,
        {
            if self.slot_entry(slot_index).is_live() {
                count = count + 1;
            }
            slot_index = slot_index + 1;
        }
        Ok(count)
    }

    /// Free bytes available without compaction.
    pub fn free_space(&self) -> (r: DbResult<usize>)
        requires
            self.wf(),
        ensures
            r is Ok <==> header_ok(self@),
            r matches Ok(f) ==> f == raw_free_end(self@) - raw_free_start(self@),
            r is Err ==> r->Err_0 is Corruption,
    {
        let header = self.header()?;
        Ok((header.free_end - header.free_start) as usize)
    }

    /// Repack live record bytes while keeping live slot ids unchanged.
    ///
    /// Live payloads are packed downwards from the end of the page in slot
    /// order; the rest of the record area is zeroed.
    ///
    /// A page whose live records add up to more than the record area holds
    /// overlapping records; it is refused as corrupt and left as it is.
    pub fn compact(&mut self) -> (r: DbResult<()>)
        requires
            old(self).wf(),
        ensures
            final(self).wf(),
            !header_ok(old(self)@) ==> r is Err && r->Err_0 is Corruption && final(self)@ == old(self)@,
            header_ok(old(self)@) && !live_ends_in_page(old(self)@, raw_slot_count(old(self)@))
                ==> r is Err && r->Err_0 is Corruption && final(self)@ == old(self)@,
            header_ok(old(self)@) && live_ends_in_page(old(self)@, raw_slot_count(old(self)@))
                && live_total(old(self)@, raw_slot_count(old(self)@)) > PAGE_SIZE - raw_free_start(old(self)@)
                ==> r is Err && r->Err_0 is Corruption && final(self)@ == old(self)@,
            header_ok(old(self)@) && live_ends_in_page(old(self)@, raw_slot_count(old(self)@))
                && live_total(old(self)@, raw_slot_count(old(self)@)) <= PAGE_SIZE - raw_free_start(old(self)@)
                ==> r is Ok && compact_post(old(self)@, final(self)@) && compact_layout(old(self)@, final(self)@),
            page_valid(old(self)@) && live_fits(old(self)@) ==> r is Ok && page_valid(final(self)@) && live_fits(final(self)@),
    {
        proof {
            if page_valid(self@) {
                lemma_valid_live_ends(self@);
            }
        }
        let header = self.header()?;
        let count = header.slot_count;
        let ghost b = self@;
        let mut live_records: Vec<(u16, Vec<u8>)> = Vec::new();
        let mut i: u16 = 0;
        while i < count
            invariant
                self.wf(),
                self@ == b,
                header_ok(b),
                count == raw_slot_count(b),
                i <= count,
                live_ends_in_page(b, i as int),
                b == old(self)@,
                page_valid(b) ==> live_ends_in_page(b, count as int),
                collected(b, live_records@, i as int),
                prefix_totals(b, live_records@),
            decreases count - i,
        {
            let slot = self.slot_entry(i);
            let ghost before = live_records@;
            if slot.is_live() {
                let data = match self.read_record(SlotId(i))? {
                    Some(d) => vstd::slice::slice_to_vec(d),
                    None => return Err(corruption("live slot without data")),
                };
                live_records.push((i, data));
                proof {
                    assert(live_records@.drop_last() =~= before);
                    assert(live_records@[live_records@.len() - 1].0 == i);
                }
            }
            proof {
                assert(slot_live(b, i as int) ==> slot_offset_of(b, i as int) + slot_len_of(b, i as int) <= PAGE_SIZE);
                lemma_collected_step(b, before, live_records@, i as int);
                let now = live_records@;
                assert forall|m: int| 0 <= m < now.len() implies total_len(#[trigger] now.take(m + 1)) == live_total(b, now[m].0 + 1) by {
                    if m < before.len() {
                        assert(now.take(m + 1) =~= before.take(m + 1));
                        assert(now[m] == before[m]);
                    } else {
                        assert(now.take(m + 1) =~= now);
                    }
                }
            }
            i = i + 1;
        }
        let ghost recs = live_records@;
        proof { lemma_total_prefix(recs, recs.len() as int); assert(recs.take(recs.len() as int) =~= recs); }
        let fs = header.free_start as usize;
        let mut total: usize = 0;
        let mut t: usize = 0;
        while t < live_records.len()
            invariant
                self.wf(),
                self@ == b,
                header_ok(b),
                count == raw_slot_count(b),
                collected(b, recs, count as int),
                live_records@ == recs,
                fs == raw_free_start(b),
                fs <= PAGE_SIZE,
                t <= recs.len(),
                total == total_len(recs.take(t as int)),
                total <= PAGE_SIZE - fs,
            decreases recs.len() - t,
        {
            proof { lemma_total_step(recs, t as int); }
            let len = live_records[t].1.len();
            if len > PAGE_SIZE - fs - total {
                proof { lemma_total_prefix(recs, t + 1); }
                return Err(corruption("live records overlap"));
            }
            total = total + len;
            t = t + 1;
        }
        proof { assert(recs.take(recs.len() as int) =~= recs); }
        let mut p = fs;
        while p < PAGE_SIZE
            invariant
                self.wf(),
                b.len() == PAGE_SIZE,
                fs == raw_free_start(b),
                fs <= p <= PAGE_SIZE,
                forall|q: int| 0 <= q < PAGE_SIZE && (q < fs || p <= q) ==> #[trigger] self@[q] == b[q],
                forall|q: int| fs <= q < p ==> #[trigger] self@[q] == 0,
            decreases PAGE_SIZE - p,
        {
            self.bytes.set(p, 0);
            p = p + 1;
        }
        let mut free_end: usize = PAGE_SIZE;
        let mut k: usize = 0;
        let ghost mut starts: Seq<int> = Seq::empty();
        let n_recs = live_records.len();
        while k < n_recs
            invariant
                self.wf(),
                n_recs == recs.len(),
                live_records@ == recs,
                header_ok(b),
                count == raw_slot_count(b),
                fs == raw_free_start(b),
                collected(b, recs, count as int),
                total_len(recs) <= PAGE_SIZE - fs,
                k <= n_recs,
                free_end == PAGE_SIZE - total_len(recs.take(k as int)),
                fs <= free_end,
                starts.len() == k,
                placed(self@, b, recs, starts, k as int, free_end as int),
                forall|m: int| 0 <= m < k ==> #[trigger] starts[m] == PAGE_SIZE - total_len(recs.take(m + 1)),
            decreases n_recs - k,
        {
            proof { lemma_total_prefix(recs, k as int + 1); lemma_total_prefix(recs, k as int); lemma_total_step(recs, k as int); }
            let slot_index = live_records[k].0;
            let data = &live_records[k].1;
            let len = data.len();
            let ghost cur = self@;
            free_end = free_end - len;
            self.copy_into(free_end, data.as_slice());
            let ghost c1 = self@;
            proof { lemma_collected_slot(b, recs, k as int); }
            self.write_slot_entry(slot_index, SlotEntry { offset: free_end as u16, len: len as u16, flags: SLOT_LIVE });
            proof {
                lemma_placed_step(b, recs, starts, k as int, free_end as int, cur, c1, self@);
                starts = starts.push(free_end as int);
            }
            k = k + 1;
        }
        proof { assert(recs.take(n_recs as int) =~= recs); }
        let ghost c3 = self@;
        write_u16(&mut self.bytes, OFF_FREE_END, free_end as u16);
        let ghost c4 = self@;
        self.refresh_checksum();
        proof {
            lemma_compact_post(b, recs, starts, c3, c4, self@, free_end as int);
            lemma_compact_layout(b, recs, starts, c3, c4, self@, free_end as int);
            if page_valid(b) {
                lemma_compact_live_fits(b, self@);
            }
        }
        Ok(())
    }
}


} // verus!
