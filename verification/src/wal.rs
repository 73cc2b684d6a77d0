//! Write-ahead log: the binary record envelope, LSN allocation, append and
//! scan over a VFS file, and the committed-page-image redo pass.
//!
//! A record is a 40-byte header followed by its payload. In this format the
//! LSN of a record is the byte offset of its header in the WAL file.

use vstd::prelude::*;
use vstd::arithmetic::div_mod::lemma_add_mod_noop;
use crate::bytes::{le16, le32, le64, le16_bytes, le32_bytes, le64_bytes, lemma_le16_bytes,
    lemma_le32_bytes, lemma_le64_bytes, lemma_le_in_suffix, same_outside, read_u16, read_u32,
    read_u64, write_u32, push_u16, push_u32, push_u64};
use crate::page::{Page, PAGE_SIZE, page_valid, spec_header, byte_sum, spec_checksum, lemma_byte_sum_step};
use crate::types::{DbError, DbResult, Lsn, PageId, TxId, user_error, corruption};
use crate::vfs::VfsFile;

verus! {

/// WAL record magic: "RDBW".
pub const WAL_MAGIC: u32 = 0x5244_4257;
/// WAL record format version.
pub const WAL_VERSION: u16 = 1;
/// Fixed WAL record header size.
pub const WAL_HEADER_SIZE: usize = 40;

pub const WAL_OFF_MAGIC: usize = 0;
pub const WAL_OFF_VERSION: usize = 4;
pub const WAL_OFF_KIND: usize = 6;
pub const WAL_OFF_LSN: usize = 8;
pub const WAL_OFF_TX_ID: usize = 16;
pub const WAL_OFF_PAGE_ID: usize = 24;
pub const WAL_OFF_PAYLOAD_LEN: usize = 32;
pub const WAL_OFF_CHECKSUM: usize = 36;

pub const KIND_BEGIN_TX: u16 = 1;
pub const KIND_PAGE_IMAGE: u16 = 2;
pub const KIND_COMMIT_TX: u16 = 3;
pub const KIND_ABORT_TX: u16 = 4;
pub const KIND_CHECKPOINT: u16 = 5;
/// Id written in header fields that a record kind does not use.
pub const ABSENT_ID: u64 = 0xFFFF_FFFF_FFFF_FFFF;

/// Minimal WAL record kinds for the first recovery milestones.
#[derive(Clone, Debug, PartialEq, Eq)]
pub enum WalRecordKind {
    /// Transaction started.
    BeginTx {
        /// Transaction id.
        tx_id: TxId,
    },
    /// A full page image was written for simple redo.
    PageImage {
        /// Transaction id that produced the image.
        tx_id: TxId,
        /// Page affected by the image.
        page_id: PageId,
        /// Complete serialized page bytes.
        image: Vec<u8>,
    },
    /// Transaction committed.
    CommitTx {
        /// Transaction id.
        tx_id: TxId,
    },
    /// Transaction aborted.
    AbortTx {
        /// Transaction id.
        tx_id: TxId,
    },
    /// Recovery checkpoint marker.
    Checkpoint,
}

/// WAL record envelope.
#[derive(Clone, Debug, PartialEq, Eq)]
pub struct WalRecord {
    /// Record LSN: the byte offset of the record header.
    pub lsn: Lsn,
    /// Record kind.
    pub kind: WalRecordKind,
}

/// Mathematical value of a record kind.
pub enum WalKindView {
    BeginTx(u64),
    PageImage(u64, u64, Seq<u8>),
    CommitTx(u64),
    AbortTx(u64),
    Checkpoint,
}

/// Mathematical value of a record.
pub struct WalRecordView {
    pub lsn: u64,
    pub kind: WalKindView,
}

impl View for WalRecordKind {
    type V = WalKindView;

    open spec fn view(&self) -> WalKindView {
        match self {
            WalRecordKind::BeginTx { tx_id } => WalKindView::BeginTx(tx_id.0),
            WalRecordKind::PageImage { tx_id, page_id, image } => WalKindView::PageImage(tx_id.0, page_id.0, image@),
            WalRecordKind::CommitTx { tx_id } => WalKindView::CommitTx(tx_id.0),
            WalRecordKind::AbortTx { tx_id } => WalKindView::AbortTx(tx_id.0),
            WalRecordKind::Checkpoint => WalKindView::Checkpoint,
        }
    }
}

impl View for WalRecord {
    type V = WalRecordView;

    open spec fn view(&self) -> WalRecordView {
        WalRecordView { lsn: self.lsn.0, kind: self.kind@ }
    }
}

/// `(kind code, tx id field, page id field)` of a record kind.
pub open spec fn kind_metadata(k: WalKindView) -> (u16, u64, u64) {
    match k {
        WalKindView::BeginTx(tx) => (KIND_BEGIN_TX, tx, ABSENT_ID),
        WalKindView::PageImage(tx, page, _) => (KIND_PAGE_IMAGE, tx, page),
        WalKindView::CommitTx(tx) => (KIND_COMMIT_TX, tx, ABSENT_ID),
        WalKindView::AbortTx(tx) => (KIND_ABORT_TX, tx, ABSENT_ID),
        WalKindView::Checkpoint => (KIND_CHECKPOINT, ABSENT_ID, ABSENT_ID),
    }
}

/// Payload bytes of a record kind.
pub open spec fn kind_payload(k: WalKindView) -> Seq<u8> {
    match k {
        WalKindView::PageImage(_, _, image) => image,
        _ => Seq::empty(),
    }
}

/// Bytes with the checksum field `[36, 40)` cleared.
pub open spec fn wal_checksum_field_cleared(b: Seq<u8>) -> Seq<u8> {
    b.update(36, 0).update(37, 0).update(38, 0).update(39, 0)
}

/// The record checksum: byte sum modulo 2^32, ignoring the checksum field.
pub open spec fn spec_wal_checksum(b: Seq<u8>) -> u32 {
    spec_checksum(wal_checksum_field_cleared(b))
}

/// Header bytes before the checksum field.
pub open spec fn header_prefix(r: WalRecordView) -> Seq<u8> {
    let (kind, tx, page) = kind_metadata(r.kind);
    le32_bytes(WAL_MAGIC) + le16_bytes(WAL_VERSION) + le16_bytes(kind) + le64_bytes(r.lsn)
        + le64_bytes(tx) + le64_bytes(page) + le32_bytes(kind_payload(r.kind).len() as u32)
}

/// The encoding of a record.
pub open spec fn spec_encode(r: WalRecordView) -> Seq<u8> {
    let cleared = header_prefix(r) + le32_bytes(0) + kind_payload(r.kind);
    header_prefix(r) + le32_bytes(spec_checksum(cleared)) + kind_payload(r.kind)
}

/// A record can be encoded: its payload length fits the `u32` length field.
pub open spec fn encodable(r: WalRecordView) -> bool {
    kind_payload(r.kind).len() <= u32::MAX
}

/// The record that `WalRecord::decode` produces from `b`, if any.
pub open spec fn spec_decode(b: Seq<u8>) -> Option<WalRecordView> {
    if b.len() < WAL_HEADER_SIZE {
        None
    } else if le32(b, WAL_OFF_MAGIC as int) != WAL_MAGIC {
        None
    } else if le16(b, WAL_OFF_VERSION as int) != WAL_VERSION {
        None
    } else if b.len() != WAL_HEADER_SIZE + le32(b, WAL_OFF_PAYLOAD_LEN as int) {
        None
    } else if le32(b, WAL_OFF_CHECKSUM as int) != spec_wal_checksum(b) {
        None
    } else {
        let lsn = le64(b, WAL_OFF_LSN as int) as u64;
        let tx = le64(b, WAL_OFF_TX_ID as int) as u64;
        let page = le64(b, WAL_OFF_PAGE_ID as int) as u64;
        let payload = b.subrange(WAL_HEADER_SIZE as int, b.len() as int);
        let kind = le16(b, WAL_OFF_KIND as int);
        if kind == KIND_BEGIN_TX && payload.len() == 0 {
            Some(WalRecordView { lsn, kind: WalKindView::BeginTx(tx) })
        } else if kind == KIND_PAGE_IMAGE && payload.len() == PAGE_SIZE {
            Some(WalRecordView { lsn, kind: WalKindView::PageImage(tx, page, payload) })
        } else if kind == KIND_COMMIT_TX && payload.len() == 0 {
            Some(WalRecordView { lsn, kind: WalKindView::CommitTx(tx) })
        } else if kind == KIND_ABORT_TX && payload.len() == 0 {
            Some(WalRecordView { lsn, kind: WalKindView::AbortTx(tx) })
        } else if kind == KIND_CHECKPOINT && payload.len() == 0 {
            Some(WalRecordView { lsn, kind: WalKindView::Checkpoint })
        } else {
            None
        }
    }
}

/// Records that survive a round trip: page images carry exactly one page.
pub open spec fn roundtrip_ok(r: WalRecordView) -> bool {
    r.kind matches WalKindView::PageImage(_, _, image) ==> image.len() == PAGE_SIZE
}

impl WalRecordKind {
    /// Create a page-image WAL record kind from a validated page.
    pub fn page_image(tx_id: TxId, page: &Page) -> (r: DbResult<WalRecordKind>)
        requires
            page.wf(),
        ensures
            r is Ok <==> page_valid(page@),
            r is Err ==> r->Err_0 is Corruption,
            r matches Ok(k) ==> k@ == WalKindView::PageImage(tx_id.0, spec_header(page@).page_id.0, page@),
    {
        page.validate()?;
        let header = page.header()?;
        Ok(WalRecordKind::PageImage {
            tx_id,
            page_id: header.page_id,
            image: vstd::slice::slice_to_vec(page.as_bytes()),
        })
    }

    fn metadata(&self) -> (m: (u16, u64, u64))
        ensures
            m == kind_metadata(self@),
    {
        match self {
            WalRecordKind::BeginTx { tx_id } => (KIND_BEGIN_TX, tx_id.0, ABSENT_ID),
            WalRecordKind::PageImage { tx_id, page_id, .. } => (KIND_PAGE_IMAGE, tx_id.0, page_id.0),
            WalRecordKind::CommitTx { tx_id } => (KIND_COMMIT_TX, tx_id.0, ABSENT_ID),
            WalRecordKind::AbortTx { tx_id } => (KIND_ABORT_TX, tx_id.0, ABSENT_ID),
            WalRecordKind::Checkpoint => (KIND_CHECKPOINT, ABSENT_ID, ABSENT_ID),
        }
    }

    fn payload(&self) -> (p: &[u8])
        ensures
            p@ == kind_payload(self@),
    {
        match self {
            WalRecordKind::PageImage { image, .. } => image.as_slice(),
            _ => {
                let empty: &[u8] = &[];
                assert(empty@ =~= Seq::<u8>::empty());
                empty
            },
        }
    }
}

/// Record checksum over `bytes`, skipping the checksum field.
fn wal_checksum(bytes: &[u8]) -> (c: u32)
    requires
        bytes@.len() >= WAL_HEADER_SIZE,
    ensures
        c == spec_wal_checksum(bytes@),
{
    let ghost cleared = wal_checksum_field_cleared(bytes@);
    let n = bytes.len();
    let mut acc: u32 = 0;
    let mut i: usize = 0;
    while i < n
        invariant
            n == bytes@.len(),
            n >= WAL_HEADER_SIZE,
            cleared.len() == n,
            cleared == wal_checksum_field_cleared(bytes@),
            i <= n,
            acc == byte_sum(cleared.take(i as int)) % 0x1_0000_0000,
        decreases n - i,
    {
        proof {
            lemma_byte_sum_step(cleared, i as int);
            lemma_add_mod_noop(byte_sum(cleared.take(i as int)) as int, cleared[i as int] as int, 0x1_0000_0000);
        }
        if i < WAL_OFF_CHECKSUM || i >= WAL_OFF_CHECKSUM + 4 {
            assert(cleared[i as int] == bytes@[i as int]);
            acc = ((acc as u64 + bytes[i] as u64) % 0x1_0000_0000) as u32;
        } else {
            assert(cleared[i as int] == 0);
        }
        i = i + 1;
    }
    assert(cleared.take(n as int) =~= cleared);
    acc
}

#[verifier::rlimit(100)]
#[verifier::spinoff_prover]
pub proof fn lemma_encode_layout(r: WalRecordView)
    requires
        encodable(r),
    ensures
        header_prefix(r).len() == 36,
        spec_encode(r).len() == WAL_HEADER_SIZE + kind_payload(r.kind).len(),
        le32(spec_encode(r), 0) == WAL_MAGIC,
        le16(spec_encode(r), 4) == WAL_VERSION,
        le16(spec_encode(r), 6) == kind_metadata(r.kind).0,
        le64(spec_encode(r), 8) == r.lsn,
        le64(spec_encode(r), 16) == kind_metadata(r.kind).1,
        le64(spec_encode(r), 24) == kind_metadata(r.kind).2,
        le32(spec_encode(r), 32) == kind_payload(r.kind).len(),
        le32(spec_encode(r), 36) == spec_checksum(header_prefix(r) + le32_bytes(0) + kind_payload(r.kind)),
        wal_checksum_field_cleared(spec_encode(r)) == header_prefix(r) + le32_bytes(0) + kind_payload(r.kind),
        spec_encode(r).subrange(WAL_HEADER_SIZE as int, spec_encode(r).len() as int) == kind_payload(r.kind),
{
    let (kind, tx, page) = kind_metadata(r.kind);
    let payload = kind_payload(r.kind);
    let cleared = header_prefix(r) + le32_bytes(0) + payload;
    let cs = spec_checksum(cleared);
    lemma_le32_bytes(WAL_MAGIC);
    lemma_le16_bytes(WAL_VERSION);
    lemma_le16_bytes(kind);
    lemma_le64_bytes(r.lsn);
    lemma_le64_bytes(tx);
    lemma_le64_bytes(page);
    lemma_le32_bytes(payload.len() as u32);
    lemma_le32_bytes(0);
    lemma_le32_bytes(cs);
    let s = spec_encode(r);
    let a0 = le32_bytes(WAL_MAGIC);
    let a1 = a0 + le16_bytes(WAL_VERSION);
    let a2 = a1 + le16_bytes(kind);
    let a3 = a2 + le64_bytes(r.lsn);
    let a4 = a3 + le64_bytes(tx);
    let a5 = a4 + le64_bytes(page);
    let a6 = a5 + le32_bytes(payload.len() as u32);
    assert(a6 == header_prefix(r));
    let tail = le32_bytes(cs) + payload;
    assert(s =~= a6 + tail);
    // each field, read from its own piece
    assert forall|i: int| 0 <= i < 4 implies #[trigger] s[i] == a0[i] by {}
    assert forall|i: int| 4 <= i < 6 implies #[trigger] s[i] == le16_bytes(WAL_VERSION)[i - 4] by {}
    assert forall|i: int| 6 <= i < 8 implies #[trigger] s[i] == le16_bytes(kind)[i - 6] by {}
    assert forall|i: int| 8 <= i < 16 implies #[trigger] s[i] == le64_bytes(r.lsn)[i - 8] by {}
    assert forall|i: int| 16 <= i < 24 implies #[trigger] s[i] == le64_bytes(tx)[i - 16] by {}
    assert forall|i: int| 24 <= i < 32 implies #[trigger] s[i] == le64_bytes(page)[i - 24] by {}
    assert forall|i: int| 32 <= i < 36 implies #[trigger] s[i] == le32_bytes(payload.len() as u32)[i - 32] by {}
    assert forall|i: int| 36 <= i < 40 implies #[trigger] s[i] == le32_bytes(cs)[i - 36] by {}
    assert(wal_checksum_field_cleared(s) =~= cleared);
    assert(s.subrange(40, s.len() as int) =~= payload);
}

/// Decoding an encoded record gives the record back.
pub proof fn lemma_decode_encode(r: WalRecordView)
    requires
        encodable(r),
        roundtrip_ok(r),
    ensures
        spec_decode(spec_encode(r)) == Some(r),
{
    lemma_encode_layout(r);
    let s = spec_encode(r);
    assert(spec_wal_checksum(s) == le32(s, 36));
    match r.kind {
        WalKindView::PageImage(tx, page, image) => {
            assert(spec_decode(s) == Some(WalRecordView { lsn: r.lsn, kind: WalKindView::PageImage(tx, page, image) }));
        },
        _ => {},
    }
}

impl WalRecord {
    /// Encode this record into the binary WAL envelope.
    pub fn encode(&self) -> (r: DbResult<Vec<u8>>)
        ensures
            r is Ok <==> encodable(self@),
            r matches Ok(b) ==> b@ == spec_encode(self@),
            r is Err ==> r->Err_0 is User,
    {
        encode_record(self)
    }

    /// Decode one complete WAL record from bytes.
    pub fn decode(bytes: &[u8]) -> (r: DbResult<WalRecord>)
        ensures
            r is Ok <==> spec_decode(bytes@) is Some,
            r matches Ok(rec) ==> spec_decode(bytes@) == Some(rec@),
            r is Err ==> r->Err_0 is Corruption,
    {
        decode_record(bytes)
    }
}

fn encode_record(record: &WalRecord) -> (r: DbResult<Vec<u8>>)
    ensures
        r is Ok <==> encodable(record@),
        r matches Ok(b) ==> b@ == spec_encode(record@),
        r is Err ==> r->Err_0 is User,
{
    let payload = record.kind.payload();
    if payload.len() > 0xFFFF_FFFF {
        return Err(user_error("wal payload length overflow"));
    }
    let payload_len = payload.len() as u32;
    let (kind, tx_id, page_id) = record.kind.metadata();
    let mut bytes: Vec<u8> = Vec::new();
    push_u32(&mut bytes, WAL_MAGIC);
    push_u16(&mut bytes, WAL_VERSION);
    push_u16(&mut bytes, kind);
    push_u64(&mut bytes, record.lsn.0);
    push_u64(&mut bytes, tx_id);
    push_u64(&mut bytes, page_id);
    push_u32(&mut bytes, payload_len);
    let ghost prefix = bytes@;
    proof {
        assert(prefix =~= Seq::<u8>::empty() + header_prefix(record@));
        lemma_encode_layout(record@);
    }
    push_u32(&mut bytes, 0);
    let ghost before_payload = bytes@;
    let n = payload.len();
    let mut i: usize = 0;
    while i < n
        invariant
            n == payload@.len(),
            i <= n,
            bytes@ == before_payload + payload@.take(i as int),
        decreases n - i,
    {
        bytes.push(payload[i]);
        i = i + 1;
        proof {
            assert(payload@.take(i as int) =~= payload@.take(i - 1) + seq![payload@[i - 1]]);
        }
    }
    proof {
        assert(payload@.take(n as int) =~= payload@);
        lemma_le32_bytes(0);
    }
    let checksum = wal_checksum(bytes.as_slice());
    let ghost cleared = bytes@;
    write_u32(&mut bytes, WAL_OFF_CHECKSUM, checksum);
    proof {
        let s = bytes@;
        let expected = spec_encode(record@);
        assert(cleared =~= header_prefix(record@) + le32_bytes(0) + payload@);
        assert(wal_checksum_field_cleared(cleared) =~= cleared) by {
            assert(cleared[36] == 0 && cleared[37] == 0 && cleared[38] == 0 && cleared[39] == 0);
        }
        assert forall|i: int| 36 <= i < 40 implies #[trigger] s[i] == le32_bytes(checksum)[i - 36] by {
            assert(s.subrange(36, 40)[i - 36] == s[i]);
        }
        assert(s =~= expected);
    }
    Ok(bytes)
}

fn decode_record(bytes: &[u8]) -> (r: DbResult<WalRecord>)
    ensures
        r is Ok <==> spec_decode(bytes@) is Some,
        r matches Ok(rec) ==> spec_decode(bytes@) == Some(rec@),
        r is Err ==> r->Err_0 is Corruption,
{
    let len = bytes.len();
    if len < WAL_HEADER_SIZE {
        return Err(corruption("truncated wal record header"));
    }
    if read_u32(bytes, WAL_OFF_MAGIC) != WAL_MAGIC {
        return Err(corruption("invalid wal magic"));
    }
    if read_u16(bytes, WAL_OFF_VERSION) != WAL_VERSION {
        return Err(corruption("unsupported wal version"));
    }
    let payload_len = read_u32(bytes, WAL_OFF_PAYLOAD_LEN) as usize;
    if len - WAL_HEADER_SIZE != payload_len {
        return Err(corruption("wal record length mismatch"));
    }
    let stored = read_u32(bytes, WAL_OFF_CHECKSUM);
    let actual = wal_checksum(bytes);
    if stored != actual {
        return Err(corruption("wal checksum mismatch"));
    }
    let lsn = Lsn(read_u64(bytes, WAL_OFF_LSN));
    let tx_id = TxId(read_u64(bytes, WAL_OFF_TX_ID));
    let page_id = PageId(read_u64(bytes, WAL_OFF_PAGE_ID));
    let kind = read_u16(bytes, WAL_OFF_KIND);
    let kind = if kind == KIND_BEGIN_TX {
        require_empty_payload(payload_len)?;
        WalRecordKind::BeginTx { tx_id }
    } else if kind == KIND_PAGE_IMAGE {
        if payload_len != PAGE_SIZE {
            return Err(corruption("invalid page image payload length"));
        }
        let image = vstd::slice::slice_to_vec(vstd::slice::slice_subrange(bytes, WAL_HEADER_SIZE, len));
        WalRecordKind::PageImage { tx_id, page_id, image }
    } else if kind == KIND_COMMIT_TX {
        require_empty_payload(payload_len)?;
        WalRecordKind::CommitTx { tx_id }
    } else if kind == KIND_ABORT_TX {
        require_empty_payload(payload_len)?;
        WalRecordKind::AbortTx { tx_id }
    } else if kind == KIND_CHECKPOINT {
        require_empty_payload(payload_len)?;
        WalRecordKind::Checkpoint
    } else {
        return Err(corruption("unknown wal record kind"));
    };
    Ok(WalRecord { lsn, kind })
}

fn require_empty_payload(payload_len: usize) -> (r: DbResult<()>)
    ensures
        r is Ok <==> payload_len == 0,
        r is Err ==> r->Err_0 is Corruption,
{
    if payload_len == 0 {
        Ok(())
    } else {
        Err(corruption("wal record has unexpected payload length"))
    }
}

/// Number of bytes the encoding of a record of this kind takes.
pub open spec fn spec_encoded_len(k: WalKindView) -> int {
    WAL_HEADER_SIZE + kind_payload(k).len()
}

fn encoded_len_for_kind(kind: &WalRecordKind) -> (r: DbResult<u64>)
    ensures
        r is Ok <==> spec_encoded_len(kind@) <= u64::MAX,
        r matches Ok(n) ==> n == spec_encoded_len(kind@),
        r is Err ==> r->Err_0 is User,
{
    let payload_len = kind.payload().len() as u64;
    match (WAL_HEADER_SIZE as u64).checked_add(payload_len) {
        Some(n) => Ok(n),
        None => Err(user_error("wal record length overflow")),
    }
}

/// Monotonic LSN allocator for append-only WAL records.
#[derive(Clone, Copy, Debug, PartialEq, Eq, Structural)]
pub struct LsnAllocator {
    next: Lsn,
}

impl LsnAllocator {
    /// The next LSN to hand out.
    pub closed spec fn spec_next(&self) -> u64 {
        self.next.0
    }

    /// Create an allocator whose next LSN is `start`.
    pub fn new(start: Lsn) -> (a: Self)
        ensures
            a.spec_next() == start.0,
    {
        LsnAllocator { next: start }
    }

    /// Return the next LSN without advancing the allocator.
    pub fn next_lsn(&self) -> (l: Lsn)
        ensures
            l.0 == self.spec_next(),
    {
        self.next
    }

    /// Allocate `encoded_len` bytes and return the record start LSN.
    pub fn allocate(&mut self, encoded_len: u64) -> (r: DbResult<Lsn>)
        ensures
            r is Ok <==> old(self).spec_next() + encoded_len <= u64::MAX,
            r matches Ok(l) ==> l.0 == old(self).spec_next() && final(self).spec_next() == old(self).spec_next() + encoded_len,
            r is Err ==> r->Err_0 is User && *final(self) == *old(self),
    {
        let lsn = self.next;
        match self.next.0.checked_add(encoded_len) {
            Some(next) => {
                self.next = Lsn(next);
                Ok(lsn)
            },
            None => Err(user_error("wal lsn overflow")),
        }
    }
}

/// Append-only WAL writer over a VFS file.
pub struct WalWriter<F: VfsFile> {
    file: F,
    allocator: LsnAllocator,
}

impl<F: VfsFile> WalWriter<F> {
    /// The LSN the next appended record gets.
    pub closed spec fn spec_next(&self) -> u64 {
        self.allocator.spec_next()
    }

    /// The file the writer appends to.
    pub closed spec fn file(&self) -> F {
        self.file
    }

    /// The writer's file is modeled and its next LSN is the file's end, so
    /// the next record lands right after the last one.
    pub open spec fn in_sync(&self) -> bool {
        self.file().modeled() && self.file().contents().len() == self.spec_next()
    }

    /// Open a writer at the current end of `file`.
    pub fn new(file: F) -> (r: DbResult<Self>)
        ensures
            r matches Ok(w) ==> w.file() == file && (file.modeled() ==> w.in_sync()),
            file.modeled() ==> r is Ok,
    {
        let len = file.len()?;
        Ok(WalWriter { file, allocator: LsnAllocator::new(Lsn(len)) })
    }

    /// Return the next record LSN.
    pub fn next_lsn(&self) -> (l: Lsn)
        ensures
            l.0 == self.spec_next(),
    {
        self.allocator.next_lsn()
    }

    /// Append one WAL record kind, assigning its LSN from the allocator.
    ///
    /// The record is written at the byte offset equal to its LSN, and the next
    /// LSN advances by the length of its encoding.
    pub fn append(&mut self, kind: WalRecordKind) -> (r: DbResult<Lsn>)
        ensures
            r matches Ok(l) ==> l.0 == old(self).spec_next()
                && final(self).spec_next() == old(self).spec_next() + spec_encoded_len(kind@),
            old(self).spec_next() + spec_encoded_len(kind@) > u64::MAX ==> r is Err && final(self).spec_next() == old(self).spec_next(),
            final(self).file().modeled() == old(self).file().modeled(),
            old(self).in_sync() && r is Ok ==> final(self).in_sync()
                && final(self).file().contents() == old(self).file().contents()
                    + spec_encode(WalRecordView { lsn: old(self).spec_next(), kind: kind@ }),
            old(self).file().modeled() && kind_payload(kind@).len() <= u32::MAX
                && old(self).spec_next() + spec_encoded_len(kind@) <= usize::MAX ==> r is Ok,
    {
        let encoded_len = encoded_len_for_kind(&kind)?;
        let lsn = self.allocator.allocate(encoded_len)?;
        let record = WalRecord { lsn, kind };
        let bytes = record.encode()?;
        proof {
            lemma_encode_layout(record@);
        }
        let ghost c = self.file.contents();
        self.file.write_all_at(lsn.0, bytes.as_slice())?;
        proof {
            if old(self).in_sync() {
                lemma_encode_layout(record@);
                assert(self.file.contents() =~= c + bytes@);
            }
        }
        Ok(lsn)
    }

    /// Force durable WAL bytes through the VFS boundary.
    pub fn sync_data(&mut self) -> (r: DbResult<()>)
        ensures
            final(self).spec_next() == old(self).spec_next(),
            final(self).file().modeled() == old(self).file().modeled(),
            old(self).file().modeled() ==> final(self).file().contents() == old(self).file().contents(),
            old(self).file().modeled() ==> r is Ok,
    {
        self.file.sync_data()
    }

    /// Return the wrapped VFS file.
    pub fn into_inner(self) -> (f: F)
        ensures
            f == self.file(),
    {
        self.file
    }
}


/// The records stored in `b` from offset `off` on, if it holds a well-formed
/// record stream there: each record's length comes from its header, each
/// record decodes, and each record's LSN is its offset.
pub open spec fn spec_parse_stream(b: Seq<u8>, off: int) -> Option<Seq<WalRecordView>>
    decreases b.len() - off,
{
    if off < 0 || off >= b.len() {
        if off == b.len() { Some(Seq::empty()) } else { None }
    } else if b.len() - off < WAL_HEADER_SIZE {
        None
    } else {
        let rlen = WAL_HEADER_SIZE + le32(b, off + WAL_OFF_PAYLOAD_LEN);
        if b.len() - off < rlen {
            None
        } else {
            match spec_decode(b.subrange(off, off + rlen)) {
                None => None,
                Some(r) => if r.lsn != off {
                    None
                } else {
                    match spec_parse_stream(b, off + rlen) {
                        None => None,
                        Some(rest) => Some(seq![r] + rest),
                    }
                },
            }
        }
    }
}

/// `prefix` followed by the records of `rest`, if `rest` is a stream.
pub open spec fn prepend_records(prefix: Seq<WalRecordView>, rest: Option<Seq<WalRecordView>>) -> Option<Seq<WalRecordView>> {
    match rest {
        Some(r) => Some(prefix + r),
        None => None,
    }
}

/// Views of a slice of records.
pub open spec fn records_view(rs: Seq<WalRecord>) -> Seq<WalRecordView> {
    rs.map_values(|r: WalRecord| r@)
}

/// Reading the WAL stream `b` from offset `off`, well-formed records in
/// LSN order run into a tail too short for a record header or for the
/// payload its header announces.
pub open spec fn stream_truncated(b: Seq<u8>, off: int) -> bool
    decreases b.len() - off,
{
    if off < 0 || off >= b.len() {
        false
    } else if b.len() - off < WAL_HEADER_SIZE {
        true
    } else {
        let rlen = WAL_HEADER_SIZE + le32(b, off + WAL_OFF_PAYLOAD_LEN);
        if b.len() - off < rlen {
            true
        } else {
            match spec_decode(b.subrange(off, off + rlen)) {
                None => false,
                Some(r) => r.lsn == off && stream_truncated(b, off + rlen),
            }
        }
    }
}

/// Decode a complete WAL byte stream into its records.
pub fn decode_wal_stream(bytes: &[u8]) -> (r: DbResult<Vec<WalRecord>>)
    ensures
        r is Ok <==> spec_parse_stream(bytes@, 0) is Some,
        r matches Ok(rs) ==> spec_parse_stream(bytes@, 0) == Some(records_view(rs@)),
        r is Err ==> r->Err_0 is Corruption,
        stream_truncated(bytes@, 0) ==> (r matches Err(DbError::Corruption(m)) && m@ == "truncated wal record"@),
{
    let len = bytes.len();
    let mut offset: usize = 0;
    let mut records: Vec<WalRecord> = Vec::new();
    while offset < len
        invariant
            len == bytes@.len(),
            offset <= len,
            spec_parse_stream(bytes@, 0) == prepend_records(records_view(records@), spec_parse_stream(bytes@, offset as int)),
            stream_truncated(bytes@, 0) == stream_truncated(bytes@, offset as int),
        decreases len - offset,
    {
        let remaining = len - offset;
        if remaining < WAL_HEADER_SIZE {
            return Err(corruption("truncated wal record"));
        }
        let payload_len = read_u32(bytes, offset + WAL_OFF_PAYLOAD_LEN) as usize;
        if remaining - WAL_HEADER_SIZE < payload_len {
            return Err(corruption("truncated wal record"));
        }
        let record_len = WAL_HEADER_SIZE + payload_len;
        let record = WalRecord::decode(vstd::slice::slice_subrange(bytes, offset, offset + record_len))?;
        if record.lsn.0 != offset as u64 {
            return Err(corruption("wal lsn mismatch"));
        }
        let ghost before = records@;
        let ghost rv = record@;
        records.push(record);
        proof {
            assert(records_view(records@) =~= records_view(before).push(rv));
            let rest = spec_parse_stream(bytes@, offset + record_len);
            if rest is Some {
                assert(records_view(before) + (seq![rv] + rest->0) =~= records_view(records@) + rest->0);
            }
        }
        offset = offset + record_len;
    }
    proof {
        assert(records_view(records@) + Seq::<WalRecordView>::empty() =~= records_view(records@));
    }
    Ok(records)
}

proof fn lemma_suffix_bytes(b: Seq<u8>, e: Seq<u8>, off: int, w: int)
    requires
        0 <= off,
        0 <= w,
        off + w <= b.len(),
    ensures
        (b + e).subrange(off, off + w) == b.subrange(off, off + w),
{
    assert((b + e).subrange(off, off + w) =~= b.subrange(off, off + w));
}

/// Appending the encoding of a record whose LSN is the current stream length
/// extends the stream by exactly that record.
pub proof fn lemma_stream_append(b: Seq<u8>, rs: Seq<WalRecordView>, r: WalRecordView)
    requires
        spec_parse_stream(b, 0) == Some(rs),
        r.lsn == b.len(),
        encodable(r),
        roundtrip_ok(r),
    ensures
        spec_parse_stream(b + spec_encode(r), 0) == Some(rs.push(r)),
{
    lemma_stream_append_from(b, 0, rs, r);
}

#[verifier::spinoff_prover]
proof fn lemma_stream_append_from(b: Seq<u8>, off: int, rs: Seq<WalRecordView>, r: WalRecordView)
    requires
        0 <= off <= b.len(),
        spec_parse_stream(b, off) == Some(rs),
        r.lsn == b.len(),
        encodable(r),
        roundtrip_ok(r),
    ensures
        spec_parse_stream(b + spec_encode(r), off) == Some(rs.push(r)),
    decreases b.len() - off,
{
    let e = spec_encode(r);
    let be = b + e;
    lemma_encode_layout(r);
    lemma_decode_encode(r);
    if off == b.len() {
        assert(be.subrange(off, off + e.len()) =~= e);
        assert(le32(be, off + 32) == le32(e, 32)) by {
            lemma_le_in_suffix(b, e, 32, 4);
        }
        assert(spec_parse_stream(be, off + e.len()) == Some(Seq::<WalRecordView>::empty()));
        assert(seq![r] + Seq::<WalRecordView>::empty() =~= rs.push(r));
    } else {
        let rlen = WAL_HEADER_SIZE + le32(b, off + WAL_OFF_PAYLOAD_LEN);
        assert(le32(be, off + 32) == le32(b, off + 32)) by {
            assert(be[off + 32] == b[off + 32] && be[off + 33] == b[off + 33]);
            assert(be[off + 34] == b[off + 34] && be[off + 35] == b[off + 35]);
        }
        lemma_suffix_bytes(b, e, off, rlen);
        let r0 = spec_decode(b.subrange(off, off + rlen))->0;
        let rest = spec_parse_stream(b, off + rlen)->0;
        lemma_stream_append_from(b, off + rlen, rest, r);
        assert(seq![r0] + rest.push(r) =~= (seq![r0] + rest).push(r));
    }
}

/// Sequential WAL reader over a VFS file.
pub struct WalReader<F: VfsFile> {
    file: F,
}

impl<F: VfsFile> WalReader<F> {
    /// The file the reader reads.
    pub closed spec fn file(&self) -> F {
        self.file
    }

    /// Create a reader for a VFS file.
    pub fn new(file: F) -> (r: Self)
        ensures
            r.file() == file,
    {
        WalReader { file }
    }

    /// Read and validate every complete record in the WAL file.
    ///
    /// The whole file is read and decoded with `decode_wal_stream`; on success
    /// the records form a well-formed stream.
    pub fn read_all(&self) -> (r: DbResult<Vec<WalRecord>>)
        ensures
            r matches Ok(rs) ==> exists|b: Seq<u8>| spec_parse_stream(b, 0) == Some(records_view(rs@)),
            self.file().modeled() && self.file().contents().len() <= usize::MAX ==> match spec_parse_stream(self.file().contents(), 0) {
                Some(rs) => r matches Ok(x) && records_view(x@) == rs,
                None => r matches Err(e) && e is Corruption,
            },
            self.file().modeled() && self.file().contents().len() <= usize::MAX && stream_truncated(self.file().contents(), 0)
                ==> (r matches Err(DbError::Corruption(m)) && m@ == "truncated wal record"@),
    {
        let len = self.file.len()?;
        if len > usize::MAX as u64 {
            return Err(corruption("wal is too large for this platform"));
        }
        let mut bytes = vec![0u8; len as usize];
        self.file.read_exact_at(0, bytes.as_mut_slice())?;
        proof {
            if self.file().modeled() {
                assert(bytes@ =~= self.file().contents().subrange(0, len as int));
                assert(bytes@ =~= self.file().contents());
            }
        }
        decode_wal_stream(bytes.as_slice())
    }

    /// Return the wrapped VFS file.
    pub fn into_inner(self) -> (f: F)
        ensures
            f == self.file(),
    {
        self.file
    }
}

/// One replayed page image: LSN, transaction, page id and image bytes.
pub type ReplayedImage = (u64, u64, u64, Seq<u8>);

/// Receiver for committed page-image redo records.
pub trait PageImageRedo {
    /// The page images this receiver has been handed so far, in order.
    open spec fn replayed(&self) -> Seq<ReplayedImage> {
        Seq::empty()
    }

    /// The receiver's state is what replaying its images onto `origin`
    /// gives; redoing an image keeps this for every `origin`.
    open spec fn replays_onto(&self, origin: Option<Seq<u8>>) -> bool {
        true
    }

    /// Whether the receiver takes image `image` for page `page` without
    /// failing; a receiver that promises nothing says `false`.
    open spec fn accepts(&self, page: u64, image: Seq<u8>) -> bool {
        false
    }

    /// Redo one complete page image.
    fn redo_page_image(&mut self, lsn: Lsn, tx_id: TxId, page_id: PageId, image: &[u8]) -> (r: DbResult<()>)
        ensures
            r is Ok ==> final(self).replayed() == old(self).replayed().push((lsn.0, tx_id.0, page_id.0, image@)),
            r is Err ==> final(self).replayed() == old(self).replayed(),
            forall|o: Option<Seq<u8>>| old(self).replays_onto(o) ==> #[trigger] final(self).replays_onto(o),
            old(self).accepts(page_id.0, image@) ==> r is Ok,
            forall|p: u64, i: Seq<u8>| old(self).accepts(p, i) ==> #[trigger] final(self).accepts(p, i),
    ;
}

/// Some record commits transaction `tx`.
pub open spec fn tx_committed(rs: Seq<WalRecordView>, tx: u64) -> bool {
    exists|j: int| 0 <= j < rs.len() && (#[trigger] rs[j]).kind == WalKindView::CommitTx(tx)
}

/// Some record aborts transaction `tx`.
pub open spec fn tx_aborted(rs: Seq<WalRecordView>, tx: u64) -> bool {
    exists|j: int| 0 <= j < rs.len() && (#[trigger] rs[j]).kind == WalKindView::AbortTx(tx)
}

/// Record `i` is a page image that the redo pass replays: its transaction
/// committed and did not abort.
pub open spec fn redo_target(rs: Seq<WalRecordView>, i: int) -> bool {
    match rs[i].kind {
        WalKindView::PageImage(tx, _, _) => tx_committed(rs, tx) && !tx_aborted(rs, tx),
        _ => false,
    }
}

/// The page image of record `i` is a valid page carrying the record's page id.
pub open spec fn image_consistent(rs: Seq<WalRecordView>, i: int) -> bool {
    match rs[i].kind {
        WalKindView::PageImage(_, page, image) => image.len() == PAGE_SIZE && page_valid(image)
            && spec_header(image).page_id.0 == page,
        _ => true,
    }
}

/// The page images among the first `n` records that the redo pass replays, in
/// log order.
pub open spec fn replay_list(rs: Seq<WalRecordView>, n: int) -> Seq<ReplayedImage>
    decreases n,
{
    if n <= 0 {
        Seq::empty()
    } else {
        replay_list(rs, n - 1) + if redo_target(rs, n - 1) {
            match rs[n - 1].kind {
                WalKindView::PageImage(tx, page, image) => seq![(rs[n - 1].lsn, tx, page, image)],
                _ => Seq::empty(),
            }
        } else {
            Seq::empty()
        }
    }
}

/// Every page image that redo replays from `rs` is consistent and accepted by
/// `redo`.
pub open spec fn redo_ok<R: PageImageRedo>(rs: Seq<WalRecordView>, redo: R) -> bool {
    forall|i: int| 0 <= i < rs.len() && #[trigger] redo_target(rs, i) ==> image_consistent(rs, i)
        && (rs[i].kind matches WalKindView::PageImage(_, page, image) ==> redo.accepts(page, image))
}

/// Record `k` is the first page image that redo replays from `rs` and that is
/// not a consistent page, every replayed image before it being consistent
/// and accepted by `redo`.
pub open spec fn first_bad_image<R: PageImageRedo>(rs: Seq<WalRecordView>, redo: R, k: int) -> bool {
    &&& 0 <= k < rs.len()
    &&& redo_target(rs, k)
    &&& !image_consistent(rs, k)
    &&& forall|i: int| 0 <= i < k && #[trigger] redo_target(rs, i) ==> image_consistent(rs, i)
        && (rs[i].kind matches WalKindView::PageImage(_, page, image) ==> redo.accepts(page, image))
}

/// Number of redo targets among the first `n` records.
pub open spec fn redo_count(rs: Seq<WalRecordView>, n: int) -> int
    decreases n,
{
    if n <= 0 {
        0
    } else {
        redo_count(rs, n - 1) + if redo_target(rs, n - 1) { 1int } else { 0int }
    }
}

/// Replay, in log order, every page image whose transaction committed and did
/// not abort. Returns how many images were replayed.
pub fn redo_pass<R: PageImageRedo>(records: &[WalRecord], redo: &mut R) -> (r: DbResult<usize>)
    ensures
        r matches Ok(count) ==> count == redo_count(records_view(records@), records@.len() as int)
            && forall|i: int| 0 <= i < records@.len() && redo_target(records_view(records@), i)
                ==> image_consistent(records_view(records@), i),
        r is Ok ==> final(redo).replayed() == old(redo).replayed() + replay_list(records_view(records@), records@.len() as int),
        r is Err ==> exists|k: int| 0 <= k <= records@.len()
            && final(redo).replayed() == old(redo).replayed() + #[trigger] replay_list(records_view(records@), k),
        forall|o: Option<Seq<u8>>| old(redo).replays_onto(o) ==> #[trigger] final(redo).replays_onto(o),
        redo_ok(records_view(records@), *old(redo)) ==> r is Ok,
        forall|k: int| #[trigger] first_bad_image(records_view(records@), *old(redo), k) ==> r is Err && r->Err_0 is Corruption
            && final(redo).replayed() == old(redo).replayed() + replay_list(records_view(records@), k),
{
    broadcast use vstd::std_specs::hash::group_hash_axioms;
    let ghost rs = records_view(records@);
    let n = records.len();
    let mut committed: std::collections::HashSet<u64> = std::collections::HashSet::new();
    let mut aborted: std::collections::HashSet<u64> = std::collections::HashSet::new();
    let mut i: usize = 0;
    while i < n
        invariant
            n == records@.len(),
            rs == records_view(records@),
            i <= n,
            forall|t: u64| committed@.contains(t) <==> exists|j: int| 0 <= j < i && (#[trigger] rs[j]).kind == WalKindView::CommitTx(t),
            forall|t: u64| aborted@.contains(t) <==> exists|j: int| 0 <= j < i && (#[trigger] rs[j]).kind == WalKindView::AbortTx(t),
        decreases n - i,
    {
        let ghost old_c = committed@;
        let ghost old_a = aborted@;
        match &records[i].kind {
            WalRecordKind::CommitTx { tx_id } => {
                committed.insert(tx_id.0);
            },
            WalRecordKind::AbortTx { tx_id } => {
                aborted.insert(tx_id.0);
            },
            _ => {},
        }
        proof {
            assert(rs[i as int] == records@[i as int]@);
            assert forall|t: u64| committed@.contains(t) <==> exists|j: int| 0 <= j < i + 1 && (#[trigger] rs[j]).kind == WalKindView::CommitTx(t) by {
                if committed@.contains(t) && !old_c.contains(t) {
                    assert(rs[i as int].kind == WalKindView::CommitTx(t));
                }
                if exists|j: int| 0 <= j < i + 1 && (#[trigger] rs[j]).kind == WalKindView::CommitTx(t) {
                    let j = choose|j: int| 0 <= j < i + 1 && (#[trigger] rs[j]).kind == WalKindView::CommitTx(t);
                    if j < i {
                        assert(old_c.contains(t));
                    }
                }
            }
            assert forall|t: u64| aborted@.contains(t) <==> exists|j: int| 0 <= j < i + 1 && (#[trigger] rs[j]).kind == WalKindView::AbortTx(t) by {
                if aborted@.contains(t) && !old_a.contains(t) {
                    assert(rs[i as int].kind == WalKindView::AbortTx(t));
                }
                if exists|j: int| 0 <= j < i + 1 && (#[trigger] rs[j]).kind == WalKindView::AbortTx(t) {
                    let j = choose|j: int| 0 <= j < i + 1 && (#[trigger] rs[j]).kind == WalKindView::AbortTx(t);
                    if j < i {
                        assert(old_a.contains(t));
                    }
                }
            }
        }
        i = i + 1;
    }
    let mut count: usize = 0;
    let mut k: usize = 0;
    while k < n
        invariant
            n == records@.len(),
            rs == records_view(records@),
            k <= n,
            count == redo_count(rs, k as int),
            count <= k,
            redo.replayed() == old(redo).replayed() + replay_list(rs, k as int),
            forall|o: Option<Seq<u8>>| old(redo).replays_onto(o) ==> #[trigger] redo.replays_onto(o),
            forall|p: u64, im: Seq<u8>| old(redo).accepts(p, im) ==> #[trigger] redo.accepts(p, im),
            forall|t: u64| committed@.contains(t) <==> tx_committed(rs, t),
            forall|t: u64| aborted@.contains(t) <==> tx_aborted(rs, t),
            forall|i: int| 0 <= i < k && redo_target(rs, i) ==> image_consistent(rs, i),
            forall|kk: int| #[trigger] first_bad_image(rs, *old(redo), kk) ==> k <= kk,
        decreases n - k,
    {
        proof { assert(rs[k as int] == records@[k as int]@); }
        let ghost before = redo.replayed();
        proof {
            assert(replay_list(rs, k as int) == replay_list(rs, k as int) + Seq::<ReplayedImage>::empty());
        }
        let record = &records[k];
        if let WalRecordKind::PageImage { tx_id, page_id, image } = &record.kind {
            if committed.contains(&tx_id.0) && !aborted.contains(&tx_id.0) {
                proof {
                    assert(redo_target(rs, k as int));
                    if redo_ok(rs, *old(redo)) {
                        assert(image_consistent(rs, k as int));
                        assert(old(redo).accepts(page_id.0, image@));
                    }
                }
                if image.len() != PAGE_SIZE {
                    return Err(corruption("wal page image has the wrong length"));
                }
                let page = Page::from_bytes(vstd::slice::slice_to_vec(image.as_slice()))?;
                let header = page.header()?;
                if header.page_id.0 != page_id.0 {
                    return Err(corruption("wal page image id mismatch"));
                }
                redo.redo_page_image(record.lsn, *tx_id, *page_id, image.as_slice())?;
                count = count + 1;
                proof {
                    assert(redo.replayed() =~= old(redo).replayed() + replay_list(rs, k + 1));
                }
            }
        }
        proof {
            if !redo_target(rs, k as int) {
                assert(replay_list(rs, k + 1) =~= replay_list(rs, k as int));
            }
            assert forall|kk: int| #[trigger] first_bad_image(rs, *old(redo), kk) implies k + 1 <= kk by {
                if kk == k {
                    assert(image_consistent(rs, k as int));
                }
            }
        }
        k = k + 1;
    }
    Ok(count)
}

/// Replay page-image records whose transaction has a commit marker and no
/// abort marker, in log order.
pub fn redo_committed_page_images<R: PageImageRedo>(records: &[WalRecord], redo: &mut R) -> (r: DbResult<()>)
    ensures
        r is Ok ==> forall|i: int| 0 <= i < records@.len() && redo_target(records_view(records@), i)
            ==> image_consistent(records_view(records@), i),
        r is Ok ==> final(redo).replayed() == old(redo).replayed() + replay_list(records_view(records@), records@.len() as int),
        forall|o: Option<Seq<u8>>| old(redo).replays_onto(o) ==> #[trigger] final(redo).replays_onto(o),
        redo_ok(records_view(records@), *old(redo)) ==> r is Ok,
        r is Err ==> exists|k: int| 0 <= k <= records@.len()
            && final(redo).replayed() == old(redo).replayed() + #[trigger] replay_list(records_view(records@), k),
        forall|k: int| #[trigger] first_bad_image(records_view(records@), *old(redo), k) ==> r is Err && r->Err_0 is Corruption
            && final(redo).replayed() == old(redo).replayed() + replay_list(records_view(records@), k),
{
    redo_pass(records, redo)?;
    Ok(())
}


/// Changing byte `p` of `s` to `v` changes its byte sum by `v - s[p]`.
proof fn lemma_byte_sum_update(s: Seq<u8>, p: int, v: u8)
    requires
        0 <= p < s.len(),
    ensures
        byte_sum(s.update(p, v)) == byte_sum(s) - s[p] + v,
    decreases s.len(),
{
    let t = s.update(p, v);
    if p == s.len() - 1 {
        assert(t.drop_last() =~= s.drop_last());
    } else {
        assert(t.drop_last() =~= s.drop_last().update(p, v));
        lemma_byte_sum_update(s.drop_last(), p, v);
    }
}

/// Four bytes that read as the same little-endian `u32` are the same bytes.
proof fn lemma_le32_bytes_differ(a: Seq<u8>, b: Seq<u8>, off: int, p: int)
    requires
        0 <= off,
        off + 4 <= a.len(),
        a.len() == b.len(),
        off <= p < off + 4,
        a[p] != b[p],
    ensures
        le32(a, off) != le32(b, off),
{
    let (a0, a1, a2, a3) = (a[off] as int, a[off + 1] as int, a[off + 2] as int, a[off + 3] as int);
    let (b0, b1, b2, b3) = (b[off] as int, b[off + 1] as int, b[off + 2] as int, b[off + 3] as int);
    assert(le32(a, off) == a0 + 256 * a1 + 65536 * a2 + 16777216 * a3);
    assert(le32(b, off) == b0 + 256 * b1 + 65536 * b2 + 16777216 * b3);
    if le32(a, off) == le32(b, off) {
        assert(a0 == b0 && a1 == b1 && a2 == b2 && a3 == b3) by (nonlinear_arith)
            requires
                0 <= a0 < 256, 0 <= a1 < 256, 0 <= a2 < 256, 0 <= a3 < 256,
                0 <= b0 < 256, 0 <= b1 < 256, 0 <= b2 < 256, 0 <= b3 < 256,
                a0 + 256 * a1 + 65536 * a2 + 16777216 * a3 == b0 + 256 * b1 + 65536 * b2 + 16777216 * b3,
        {
            assert((a0 - b0) % 256 == 0);
        }
    }
}

/// Changing one byte of bytes whose checksum field holds their checksum
/// leaves a checksum field that does not.
#[verifier::spinoff_prover]
proof fn lemma_checksum_breaks(b: Seq<u8>, p: int, v: u8)
    requires
        b.len() >= WAL_HEADER_SIZE,
        le32(b, 36) == spec_wal_checksum(b),
        0 <= p < b.len(),
        v != b[p],
    ensures
        le32(b.update(p, v), 36) != spec_wal_checksum(b.update(p, v)),
{
    let d = b.update(p, v);
    let cb = wal_checksum_field_cleared(b);
    let cd = wal_checksum_field_cleared(d);
    if 36 <= p < 40 {
        assert(cd =~= cb);
        lemma_le32_bytes_differ(d, b, 36, p);
    } else {
        assert(cd =~= cb.update(p, v));
        assert(cb[p] == b[p]);
        lemma_byte_sum_update(cb, p, v);
        assert(le32(d, 36) == le32(b, 36));
        let x = byte_sum(cb) as int;
        let y = byte_sum(cd) as int;
        let w = b[p] as int;
        let vv = v as int;
        assert(y % 0x1_0000_0000int != x % 0x1_0000_0000int) by (nonlinear_arith)
            requires
                y == x - w + vv,
                vv != w,
                0 <= vv < 256,
                0 <= w < 256,
                x >= 0,
                y >= 0,
        {
        }
    }
}

/// The encoding of a record is refused by decoding once any one of its
/// bytes is changed.
#[verifier::spinoff_prover]
pub proof fn lemma_changed_record_refused(r: WalRecordView, p: int, v: u8)
    requires
        encodable(r),
        0 <= p < spec_encode(r).len(),
        v != spec_encode(r)[p],
    ensures
        spec_decode(spec_encode(r).update(p, v)) is None,
{
    let b = spec_encode(r);
    lemma_encode_layout(r);
    assert(le32(b, 36) == spec_wal_checksum(b));
    lemma_checksum_breaks(b, p, v);
}

/// The encoding of a record is refused by decoding once it is cut short.
#[verifier::spinoff_prover]
pub proof fn lemma_truncated_record_refused(r: WalRecordView, k: int)
    requires
        encodable(r),
        0 <= k < spec_encode(r).len(),
    ensures
        spec_decode(spec_encode(r).subrange(0, k)) is None,
{
    let b = spec_encode(r);
    lemma_encode_layout(r);
    let t = b.subrange(0, k);
    if k >= WAL_HEADER_SIZE {
        assert(le32(t, WAL_OFF_PAYLOAD_LEN as int) == le32(b, WAL_OFF_PAYLOAD_LEN as int));
    }
}

/// The encoding of a record is refused by decoding once bytes follow it.
#[verifier::spinoff_prover]
pub proof fn lemma_extended_record_refused(r: WalRecordView, extra: Seq<u8>)
    requires
        encodable(r),
        extra.len() > 0,
    ensures
        spec_decode(spec_encode(r) + extra) is None,
{
    let b = spec_encode(r);
    lemma_encode_layout(r);
    let e = b + extra;
    assert(le32(e, WAL_OFF_MAGIC as int) == le32(b, WAL_OFF_MAGIC as int));
    assert(le16(e, WAL_OFF_VERSION as int) == le16(b, WAL_OFF_VERSION as int));
    assert(le32(e, WAL_OFF_PAYLOAD_LEN as int) == le32(b, WAL_OFF_PAYLOAD_LEN as int));
}
/// A tail too short for a record: shorter than a record header, or a header
/// announcing more payload than follows it.
pub open spec fn short_tail(t: Seq<u8>) -> bool {
    ||| 0 < t.len() < WAL_HEADER_SIZE
    ||| WAL_HEADER_SIZE <= t.len() < WAL_HEADER_SIZE + le32(t, WAL_OFF_PAYLOAD_LEN as int)
}

/// Law (truncated WAL): a well-formed stream of records followed by a tail
/// too short for a record reads as truncated, so `read_all` refuses it with
/// "truncated wal record" and never hands back the shorter list.
pub proof fn law_short_tail_truncated(b: Seq<u8>, rs: Seq<WalRecordView>, t: Seq<u8>)
    requires
        spec_parse_stream(b, 0) == Some(rs),
        short_tail(t),
    ensures
        stream_truncated(b + t, 0),
{
    lemma_short_tail_from(b, 0, t);
}

#[verifier::spinoff_prover]
proof fn lemma_short_tail_from(b: Seq<u8>, off: int, t: Seq<u8>)
    requires
        0 <= off <= b.len(),
        spec_parse_stream(b, off) is Some,
        short_tail(t),
    ensures
        stream_truncated(b + t, off),
    decreases b.len() - off,
{
    let bt = b + t;
    if off == b.len() {
        if t.len() >= WAL_HEADER_SIZE {
            lemma_le_in_suffix(b, t, WAL_OFF_PAYLOAD_LEN as int, 4);
        }
    } else {
        let rlen = WAL_HEADER_SIZE + le32(b, off + WAL_OFF_PAYLOAD_LEN);
        assert(le32(bt, off + 32) == le32(b, off + 32)) by {
            assert(bt[off + 32] == b[off + 32] && bt[off + 33] == b[off + 33]);
            assert(bt[off + 34] == b[off + 34] && bt[off + 35] == b[off + 35]);
        }
        lemma_suffix_bytes(b, t, off, rlen);
        lemma_short_tail_from(b, off + rlen, t);
    }
}
} // verus!
