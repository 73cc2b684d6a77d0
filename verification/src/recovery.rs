//! Recovery: scan the WAL, redo committed full-page images into the data file.

use vstd::prelude::*;
use crate::page::{Page, PAGE_SIZE, page_valid, spec_header};
use crate::types::{DbResult, Lsn, PageId, TxId, corruption};
use crate::vfs::{PageFile, Vfs, VfsFile, write_at, spec_page_offset};
use crate::wal::{WalRecord, WalKindView, WalRecordView, redo_ok, redo_target, image_consistent, ReplayedImage, replay_list, redo_pass, PageImageRedo, WalReader, spec_parse_stream, records_view, redo_count};

verus! {

/// Files that make up the database-open boundary.
#[derive(Clone, Debug, PartialEq, Eq)]
pub struct DatabasePaths {
    data_path: String,
    wal_path: String,
}

impl DatabasePaths {
    /// Create database paths from explicit data and WAL file paths.
    pub fn new(data_path: &str, wal_path: &str) -> (p: Self)
        ensures
            p.spec_data_path() == data_path@,
            p.spec_wal_path() == wal_path@,
    {
        DatabasePaths { data_path: data_path.to_string(), wal_path: wal_path.to_string() }
    }

    pub closed spec fn spec_data_path(&self) -> Seq<char> {
        self.data_path@
    }

    pub closed spec fn spec_wal_path(&self) -> Seq<char> {
        self.wal_path@
    }

    /// Path to the fixed-size page file.
    pub fn data_path(&self) -> (r: &str)
        ensures
            r@ == self.spec_data_path(),
    {
        self.data_path.as_str()
    }

    /// Path to the WAL file.
    pub fn wal_path(&self) -> (r: &str)
        ensures
            r@ == self.spec_wal_path(),
    {
        self.wal_path.as_str()
    }
}

/// Summary of one recovery pass.
#[derive(Clone, Copy, Debug, Default, PartialEq, Eq, Structural)]
pub struct RecoveryReport {
    /// Number of WAL records scanned and validated.
    pub scanned_wal_records: usize,
    /// Number of committed page images applied to the data file.
    pub redone_page_images: usize,
}

/// Database handle returned after a recovery pass.
pub struct RecoveredDatabase<F: VfsFile> {
    page_file: PageFile<F>,
    report: RecoveryReport,
    replayed: Ghost<Seq<ReplayedImage>>,
}

impl<F: VfsFile> RecoveredDatabase<F> {
    pub closed spec fn spec_report(&self) -> RecoveryReport {
        self.report
    }

    /// The page images the recovery pass wrote back, in order.
    pub closed spec fn spec_replayed(&self) -> Seq<ReplayedImage> {
        self.replayed@
    }

    /// The recovered page file.
    pub closed spec fn spec_page_file(&self) -> PageFile<F> {
        self.page_file
    }

    /// Borrow the recovered page file.
    pub fn page_file(&self) -> (r: &PageFile<F>)
        ensures
            *r == self.spec_page_file(),
    {
        &self.page_file
    }

    /// Mutably borrow the recovered page file.
    pub fn page_file_mut(&mut self) -> (r: &mut PageFile<F>)
        ensures
            *r == old(self).spec_page_file(),
            final(self).spec_page_file() == *final(r),
            final(self).spec_report() == old(self).spec_report(),
    {
        &mut self.page_file
    }

    /// Return the recovery report from the open pass.
    pub fn recovery_report(&self) -> (r: RecoveryReport)
        ensures
            r == self.spec_report(),
    {
        self.report
    }

    /// Consume the handle and return the recovered page file.
    pub fn into_page_file(self) -> (r: PageFile<F>)
        ensures
            r == self.spec_page_file(),
    {
        self.page_file
    }
}

/// The pass went over a well-formed WAL stream: every record was scanned, and
/// exactly the committed, non-aborted page images were written back, in log
/// order, and counted.
pub open spec fn recovery_of(report: RecoveryReport, replayed: Seq<ReplayedImage>, b: Seq<u8>) -> bool {
    spec_parse_stream(b, 0) is Some && {
        let rs = spec_parse_stream(b, 0)->0;
        &&& report.scanned_wal_records == rs.len()
        &&& report.redone_page_images == redo_count(rs, rs.len() as int)
        &&& replayed == replay_list(rs, rs.len() as int)
    }
}

/// Data-file bytes `c` after each replayed image is written at its page's
/// offset, in order.
pub open spec fn replay_written(c: Seq<u8>, l: Seq<ReplayedImage>) -> Seq<u8>
    decreases l.len(),
{
    if l.len() == 0 {
        c
    } else {
        write_at(replay_written(c, l.drop_last()), spec_page_offset(PageId(l.last().2)), l.last().3)
    }
}

/// Replaying one list of images and then another is replaying them in one go.
pub proof fn lemma_replay_written_concat(c: Seq<u8>, l1: Seq<ReplayedImage>, l2: Seq<ReplayedImage>)
    ensures
        replay_written(c, l1 + l2) == replay_written(replay_written(c, l1), l2),
    decreases l2.len(),
{
    if l2.len() == 0 {
        assert(l1 + l2 =~= l1);
    } else {
        lemma_replay_written_concat(c, l1, l2.drop_last());
        assert((l1 + l2).drop_last() =~= l1 + l2.drop_last());
        assert((l1 + l2).last() == l2.last());
    }
}

/// Byte `p` of `c`, or zero past its end.
spec fn base_byte(c: Seq<u8>, p: int) -> u8 {
    if 0 <= p < c.len() { c[p] } else { 0 }
}

/// Byte `p` after the images of `l` are written onto `c`: that of the last
/// image covering `p`, else the byte of `c`.
spec fn byte_after(c: Seq<u8>, l: Seq<ReplayedImage>, p: int) -> u8
    decreases l.len(),
{
    if l.len() == 0 {
        base_byte(c, p)
    } else {
        let off = spec_page_offset(PageId(l.last().2));
        let b = l.last().3;
        if off <= p < off + b.len() { b[p - off] } else { byte_after(c, l.drop_last(), p) }
    }
}

/// End of the furthest image of `l`.
spec fn span(l: Seq<ReplayedImage>) -> int
    decreases l.len(),
{
    if l.len() == 0 {
        0
    } else {
        let end = spec_page_offset(PageId(l.last().2)) + l.last().3.len();
        let s = span(l.drop_last());
        if s > end { s } else { end }
    }
}

proof fn lemma_byte_after_past_end(c: Seq<u8>, l: Seq<ReplayedImage>, p: int)
    requires
        p >= c.len(),
        p >= span(l),
    ensures
        byte_after(c, l, p) == 0,
    decreases l.len(),
{
    if l.len() > 0 {
        lemma_byte_after_past_end(c, l.drop_last(), p);
    }
}

proof fn lemma_replay_written_bytes(c: Seq<u8>, l: Seq<ReplayedImage>)
    ensures
        replay_written(c, l).len() == if c.len() > span(l) { c.len() as int } else { span(l) },
        forall|p: int| 0 <= p < replay_written(c, l).len() ==> #[trigger] replay_written(c, l)[p] == byte_after(c, l, p),
    decreases l.len(),
{
    if l.len() > 0 {
        let d = l.drop_last();
        lemma_replay_written_bytes(c, d);
        let prev = replay_written(c, d);
        assert forall|p: int| 0 <= p < replay_written(c, l).len() implies #[trigger] replay_written(c, l)[p] == byte_after(c, l, p) by {
            if p >= prev.len() {
                lemma_byte_after_past_end(c, d, p);
            }
        }
    }
}

proof fn lemma_byte_after_base(x: Seq<u8>, y: Seq<u8>, l: Seq<ReplayedImage>, p: int)
    requires
        base_byte(x, p) == byte_after(y, l, p),
    ensures
        byte_after(x, l, p) == byte_after(y, l, p),
    decreases l.len(),
{
    if l.len() > 0 {
        let off = spec_page_offset(PageId(l.last().2));
        let b = l.last().3;
        if !(off <= p < off + b.len()) {
            lemma_byte_after_base(x, y, l.drop_last(), p);
        }
    }
}

/// Replaying the same page images a second time onto the bytes the first
/// replay produced changes nothing.
pub proof fn lemma_replay_idempotent(c: Seq<u8>, l: Seq<ReplayedImage>)
    ensures
        replay_written(replay_written(c, l), l) == replay_written(c, l),
{
    let c1 = replay_written(c, l);
    lemma_replay_written_bytes(c, l);
    lemma_replay_written_bytes(c1, l);
    assert forall|p: int| 0 <= p < c1.len() implies #[trigger] replay_written(c1, l)[p] == c1[p] by {
        assert(c1[p] == byte_after(c, l, p));
        lemma_byte_after_base(c1, c, l, p);
    }
    assert(replay_written(c1, l) =~= c1);
}

/// Recovery is idempotent: two recovery passes over the same WAL bytes
/// report the same counts and replay the same images, and the second pass
/// leaves the data file as the first one left it.
pub proof fn lemma_recovery_idempotent(
    b: Seq<u8>,
    c: Seq<u8>,
    first: RecoveryReport,
    first_images: Seq<ReplayedImage>,
    second: RecoveryReport,
    second_images: Seq<ReplayedImage>,
)
    requires
        recovery_of(first, first_images, b),
        recovery_of(second, second_images, b),
    ensures
        first == second,
        first_images == second_images,
        replay_written(replay_written(c, first_images), second_images) == replay_written(c, first_images),
{
    lemma_replay_idempotent(c, first_images);
}

/// Every page image that redo replays from `rs` is consistent and lies
/// within the platform's address range.
pub open spec fn recoverable(rs: Seq<WalRecordView>) -> bool {
    forall|i: int| 0 <= i < rs.len() && #[trigger] redo_target(rs, i) ==> image_consistent(rs, i)
        && (rs[i].kind matches WalKindView::PageImage(_, page, _) ==> spec_page_offset(PageId(page)) + PAGE_SIZE <= usize::MAX)
}

/// The pass went over some well-formed WAL stream, as `recovery_of` says.
pub open spec fn recovery_matches_stream(report: RecoveryReport, replayed: Seq<ReplayedImage>) -> bool {
    exists|b: Seq<u8>| #[trigger] recovery_of(report, replayed, b)
}

/// Open data and WAL files through `vfs`, then run the recovery pass.
pub fn open_database<V: Vfs>(vfs: &V, paths: &DatabasePaths) -> (r: DbResult<RecoveredDatabase<V::File>>)
    ensures
        r matches Ok(db) ==> recovery_matches_stream(db.spec_report(), db.spec_replayed()),
        vfs.opens_fresh() ==> (r matches Ok(db) && db.spec_report() == (RecoveryReport { scanned_wal_records: 0, redone_page_images: 0 })
            && db.spec_replayed() == Seq::<ReplayedImage>::empty()
            && db.spec_page_file().file().modeled() && db.spec_page_file().file().contents() == Seq::<u8>::empty()),
{
    let data_file = vfs.open_database(paths.data_path())?;
    let wal_file = vfs.open_database(paths.wal_path())?;
    proof {
        if vfs.opens_fresh() {
            assert(spec_parse_stream(wal_file.contents(), 0) == Some(Seq::<WalRecordView>::empty()));
            assert(replay_written(data_file.contents(), Seq::<ReplayedImage>::empty()) == data_file.contents());
        }
    }
    recover_page_file(PageFile::new(data_file), wal_file)
}

/// Run recovery over an already opened page file and WAL file. For a
/// modeled WAL file the stream is the file's bytes, and bytes that are no
/// well-formed stream are refused as corruption.
pub fn recover_page_file<F: VfsFile>(page_file: PageFile<F>, wal_file: F) -> (r: DbResult<RecoveredDatabase<F>>)
    ensures
        r matches Ok(db) ==> recovery_matches_stream(db.spec_report(), db.spec_replayed())
            && db.spec_page_file().file().modeled() == page_file.file().modeled()
            && (page_file.file().modeled() ==> db.spec_page_file().file().contents()
                == replay_written(page_file.file().contents(), db.spec_replayed())),
        wal_file.modeled() && wal_file.contents().len() <= usize::MAX ==> {
            &&& r matches Ok(db) ==> recovery_of(db.spec_report(), db.spec_replayed(), wal_file.contents())
            &&& spec_parse_stream(wal_file.contents(), 0) is None ==> (r matches Err(e) && e is Corruption)
            &&& (spec_parse_stream(wal_file.contents(), 0) matches Some(rs) && recoverable(rs) && page_file.file().modeled()
                ==> r is Ok)
        },
{
    let reader = WalReader::new(wal_file);
    let records = reader.read_all()?;
    let scanned_wal_records = records.len();
    let (page_file, redone_page_images, trace) = redo_into(page_file, records.as_slice())?;
    let report = RecoveryReport { scanned_wal_records, redone_page_images };
    proof {
        let b = choose|b: Seq<u8>| spec_parse_stream(b, 0) == Some(records_view(records@));
        assert(recovery_of(report, trace@, b));
    }
    Ok(RecoveredDatabase { page_file, report, replayed: trace })
}

/// Redo the committed page images of `records` into `page_file` and sync it.
fn redo_into<F: VfsFile>(page_file: PageFile<F>, records: &[WalRecord]) -> (r: DbResult<(PageFile<F>, usize, Ghost<Seq<ReplayedImage>>)>)
    ensures
        r matches Ok((pf, count, trace)) ==> {
            &&& count == redo_count(records_view(records@), records@.len() as int)
            &&& trace@ == replay_list(records_view(records@), records@.len() as int)
            &&& pf.file().modeled() == page_file.file().modeled()
            &&& page_file.file().modeled() ==> pf.file().contents() == replay_written(page_file.file().contents(), trace@)
        },
        page_file.file().modeled() && recoverable(records_view(records@)) ==> r is Ok,
{
    let ghost origin = if page_file.file().modeled() { Some(page_file.file().contents()) } else { None };
    let mut redo = PageFileRedo { page_file, trace: Ghost(Seq::empty()) };
    assert(replay_written(page_file.file().contents(), Seq::empty()) == page_file.file().contents());
    assert(redo.replays_onto(origin));
    proof {
        if page_file.file().modeled() && recoverable(records_view(records@)) {
            let rs = records_view(records@);
            assert forall|i: int| 0 <= i < rs.len() && #[trigger] redo_target(rs, i) implies image_consistent(rs, i)
                && (rs[i].kind matches WalKindView::PageImage(_, page, image) ==> redo.accepts(page, image)) by {
                assert(image_consistent(rs, i));
            }
            assert(redo_ok(rs, redo));
        }
    }
    let count = redo_pass(records, &mut redo)?;
    assert(redo.replays_onto(origin));
    assert(redo.trace@ =~= Seq::<ReplayedImage>::empty() + replay_list(records_view(records@), records@.len() as int));
    redo.page_file.sync_data()?;
    Ok((redo.page_file, count, redo.trace))
}

struct PageFileRedo<F: VfsFile> {
    page_file: PageFile<F>,
    trace: Ghost<Seq<ReplayedImage>>,
}

impl<F: VfsFile> PageImageRedo for PageFileRedo<F> {
    closed spec fn replayed(&self) -> Seq<ReplayedImage> {
        self.trace@
    }

    closed spec fn accepts(&self, page: u64, image: Seq<u8>) -> bool {
        &&& self.page_file.file().modeled()
        &&& image.len() == PAGE_SIZE
        &&& page_valid(image)
        &&& spec_header(image).page_id.0 == page
        &&& spec_page_offset(PageId(page)) + PAGE_SIZE <= usize::MAX
    }

    closed spec fn replays_onto(&self, origin: Option<Seq<u8>>) -> bool {
        match origin {
            Some(base) => self.page_file.file().modeled() && self.page_file.file().contents() == replay_written(base, self.trace@),
            None => !self.page_file.file().modeled(),
        }
    }

    fn redo_page_image(&mut self, lsn: Lsn, tx_id: TxId, page_id: PageId, image: &[u8]) -> (r: DbResult<()>) {
        if image.len() != PAGE_SIZE {
            return Err(corruption("page image has the wrong length"));
        }
        let page = Page::from_bytes(vstd::slice::slice_to_vec(image))?;
        self.page_file.write_page_at(page_id, &page)?;
        let ghost prev = self.trace@;
        self.trace = Ghost(self.trace@.push((lsn.0, tx_id.0, page_id.0, image@)));
        proof {
            assert(self.trace@.drop_last() =~= prev);
        }
        Ok(())
    }
}

} // verus!
