//! VFS boundary and the page-file layer on top of it.
//!
//! Page `N` lives at byte offset `N * PAGE_SIZE`. Every page read back from a
//! file is validated before it is handed out.

use vstd::prelude::*;
use crate::page::{Page, PAGE_SIZE, page_valid, spec_header};
use crate::types::{PageId, DbError, DbResult, user_error, corruption};

verus! {

/// Minimal random-access file contract.
///
/// A file whose bytes this crate models answers `true` from `modeled`; its
/// reads, writes and syncs are then stated over `contents`. A file kept
/// elsewhere (the standard-library file of the application) models nothing
/// and is only held to keeping the buffer it fills at its length.
pub trait VfsFile {
    /// Whether `contents` describes this file.
    open spec fn modeled(&self) -> bool {
        false
    }

    /// The bytes of the file.
    open spec fn contents(&self) -> Seq<u8> {
        Seq::empty()
    }

    /// Current length of the file in bytes.
    fn len(&self) -> (r: DbResult<u64>)
        ensures
            self.modeled() ==> (r matches Ok(n) && n == self.contents().len()),
    ;

    /// Read exactly `buf.len()` bytes starting at `offset`.
    fn read_exact_at(&self, offset: u64, buf: &mut [u8]) -> (r: DbResult<()>)
        ensures
            final(buf)@.len() == old(buf)@.len(),
            self.modeled() ==> (r is Ok <==> offset + old(buf)@.len() <= self.contents().len()),
            self.modeled() && r is Ok ==> final(buf)@ == self.contents().subrange(offset as int, offset + old(buf)@.len()),
    ;

    /// Write all bytes from `buf` starting at `offset`, zero-filling any gap
    /// past the old end.
    fn write_all_at(&mut self, offset: u64, buf: &[u8]) -> (r: DbResult<()>)
        ensures
            final(self).modeled() == old(self).modeled(),
            old(self).modeled() && r is Ok ==> final(self).contents() == write_at(old(self).contents(), offset as int, buf@),
            old(self).modeled() && r is Err ==> final(self).contents() == old(self).contents(),
            old(self).modeled() ==> (r is Ok <==> offset + buf@.len() <= usize::MAX),
    ;

    /// Force durable file contents according to the platform implementation.
    fn sync_data(&mut self) -> (r: DbResult<()>)
        ensures
            final(self).modeled() == old(self).modeled(),
            old(self).modeled() ==> final(self).contents() == old(self).contents(),
            old(self).modeled() ==> r is Ok,
    ;
}

/// The bytes `c` after writing `b` at offset `off`: `b` replaces what was
/// there, the rest stays, and a gap past the old end reads as zeros.
pub open spec fn write_at(c: Seq<u8>, off: int, b: Seq<u8>) -> Seq<u8> {
    let end = off + b.len();
    let n = if c.len() > end { c.len() as int } else { end };
    Seq::new(n as nat, |i: int| if off <= i < end { b[i - off] } else if i < c.len() { c[i] } else { 0u8 })
}

/// Filesystem abstraction used by storage code.
pub trait Vfs {
    /// Concrete file type returned by this VFS.
    type File: VfsFile;

    /// Whether every file this VFS opens is a fresh, empty, modeled file; a
    /// VFS that promises nothing says `false`.
    open spec fn opens_fresh(&self) -> bool {
        false
    }

    /// Open an existing database file or create it when it does not exist.
    fn open_database(&self, path: &str) -> (r: DbResult<Self::File>)
        ensures
            self.opens_fresh() ==> (r matches Ok(f) && f.modeled() && f.contents() == Seq::<u8>::empty()),
    ;
}

/// Byte offset of a page in the page file.
pub open spec fn spec_page_offset(page_id: PageId) -> int {
    page_id.0 * PAGE_SIZE
}

/// Byte offset of a page, failing when it does not fit in a `u64`.
pub fn page_offset(page_id: PageId) -> (r: DbResult<u64>)
    ensures
        r is Ok <==> spec_page_offset(page_id) <= u64::MAX,
        r matches Ok(o) ==> o == spec_page_offset(page_id),
        r is Err ==> r->Err_0 is User,
{
    match page_id.0.checked_mul(PAGE_SIZE as u64) {
        Some(offset) => Ok(offset),
        None => Err(user_error("page offset overflow")),
    }
}

/// Disk-backed fixed-size page file.
pub struct PageFile<F: VfsFile> {
    file: F,
}

impl<F: VfsFile> PageFile<F> {
    /// Create a page-file abstraction over a VFS file.
    pub fn new(file: F) -> (p: Self)
        ensures
            p.file() == file,
    {
        PageFile { file }
    }

    /// The wrapped file.
    pub closed spec fn file(&self) -> F {
        self.file
    }

    /// Return the wrapped VFS file.
    pub fn into_inner(self) -> (f: F)
        ensures
            f == self.file(),
    {
        self.file
    }

    /// Length of the underlying file in bytes.
    pub fn len(&self) -> (r: DbResult<u64>)
        ensures
            self.file().modeled() ==> (r matches Ok(n) && n == self.file().contents().len()),
    {
        self.file.len()
    }

    /// Write a validated page at the offset implied by its own page id.
    pub fn write_page(&mut self, page: &Page) -> (r: DbResult<()>)
        requires
            page.wf(),
        ensures
            !page_valid(page@) ==> r is Err && r->Err_0 is Corruption,
            page_valid(page@) && spec_page_offset(spec_header(page@).page_id) > u64::MAX
                ==> r is Err && r->Err_0 is User,
            page_written(old(self).file(), final(self).file(), spec_header(page@).page_id, page@, r is Ok),
            old(self).file().modeled() && page_valid(page@) && spec_page_offset(spec_header(page@).page_id) + PAGE_SIZE <= usize::MAX
                ==> r is Ok,
    {
        let header = page.header()?;
        self.write_page_at(header.page_id, page)
    }

    /// Write a validated page at the given page id.
    ///
    /// The supplied `page_id` must match the id stored in the page header.
    pub fn write_page_at(&mut self, page_id: PageId, page: &Page) -> (r: DbResult<()>)
        requires
            page.wf(),
        ensures
            !page_valid(page@) ==> r is Err && r->Err_0 is Corruption,
            page_valid(page@) && spec_header(page@).page_id != page_id ==> r is Err && r->Err_0 is User,
            page_valid(page@) && spec_page_offset(page_id) > u64::MAX ==> r is Err && r->Err_0 is User,
            page_written(old(self).file(), final(self).file(), page_id, page@, r is Ok),
            old(self).file().modeled() && page_valid(page@) && spec_header(page@).page_id == page_id
                && spec_page_offset(page_id) + PAGE_SIZE <= usize::MAX ==> r is Ok,
    {
        page.validate()?;
        let header = page.header()?;
        if header.page_id != page_id {
            return Err(user_error("page id mismatch on write"));
        }
        let offset = page_offset(page_id)?;
        self.file.write_all_at(offset, page.as_bytes())
    }

    /// Read and validate a page by physical page id.
    pub fn read_page(&self, page_id: PageId) -> (r: DbResult<Page>)
        ensures
            spec_page_offset(page_id) > u64::MAX ==> r is Err && r->Err_0 is User,
            r matches Ok(p) ==> p.wf() && page_valid(p@) && spec_header(p@).page_id == page_id,
            self.file().modeled() ==> page_read(self.file().contents(), page_id, r),
            self.file().modeled() && spec_page_offset(page_id) <= u64::MAX
                && spec_page_offset(page_id) + PAGE_SIZE <= self.file().contents().len()
                && r is Err ==> r->Err_0 is Corruption,
    {
        let offset = page_offset(page_id)?;
        let mut bytes = vec![0u8; PAGE_SIZE];
        self.file.read_exact_at(offset, bytes.as_mut_slice())?;
        let page = Page::from_bytes(bytes)?;
        let header = page.header()?;
        if header.page_id != page_id {
            return Err(corruption("page id mismatch on read"));
        }
        Ok(page)
    }

    /// Force durable file contents through the VFS boundary.
    pub fn sync_data(&mut self) -> (r: DbResult<()>)
        ensures
            final(self).file().modeled() == old(self).file().modeled(),
            old(self).file().modeled() ==> final(self).file().contents() == old(self).file().contents(),
            old(self).file().modeled() ==> r is Ok,
    {
        self.file.sync_data()
    }
}

/// What writing page image `p` at `page_id` does to a file: a modeled file
/// holds `p` at the page's offset afterwards when the write succeeded, and is
/// unchanged when it failed.
pub open spec fn page_written<F: VfsFile>(o: F, f: F, page_id: PageId, p: Seq<u8>, ok: bool) -> bool {
    &&& f.modeled() == o.modeled()
    &&& o.modeled() && ok ==> f.contents() == write_at(o.contents(), spec_page_offset(page_id), p)
    &&& o.modeled() && !ok ==> f.contents() == o.contents()
}

/// What reading page `page_id` from bytes `c` gives: the page image at the
/// page's offset when it is there, valid and carries that id; an error
/// otherwise.
pub open spec fn page_read(c: Seq<u8>, page_id: PageId, r: DbResult<Page>) -> bool {
    let off = spec_page_offset(page_id);
    if off <= u64::MAX && off + PAGE_SIZE <= c.len() && page_valid(c.subrange(off, off + PAGE_SIZE))
        && spec_header(c.subrange(off, off + PAGE_SIZE)).page_id == page_id {
        r matches Ok(p) && p@ == c.subrange(off, off + PAGE_SIZE)
    } else {
        r is Err
    }
}

/// Writing elsewhere leaves a range of the bytes as it was.
pub proof fn lemma_write_at_frame(c: Seq<u8>, off: int, b: Seq<u8>, lo: int, hi: int)
    requires
        0 <= lo <= hi <= c.len(),
        0 <= off,
        hi <= off || off + b.len() <= lo,
    ensures
        write_at(c, off, b).subrange(lo, hi) == c.subrange(lo, hi),
{
    assert(write_at(c, off, b).subrange(lo, hi) =~= c.subrange(lo, hi));
}

/// A page written at its own offset is read back unchanged.
pub proof fn lemma_page_read_after_write(c: Seq<u8>, page_id: PageId, p: Seq<u8>)
    requires
        page_valid(p),
        spec_header(p).page_id == page_id,
        spec_page_offset(page_id) <= u64::MAX,
    ensures
        ({
            let w = write_at(c, spec_page_offset(page_id), p);
            let off = spec_page_offset(page_id);
            &&& off + PAGE_SIZE <= w.len()
            &&& w.subrange(off, off + PAGE_SIZE) == p
        }),
{
    let off = spec_page_offset(page_id);
    let w = write_at(c, off, p);
    assert(p.len() == PAGE_SIZE);
    assert(w.subrange(off, off + PAGE_SIZE) =~= p);
}

/// Open a page file through an arbitrary VFS implementation.
pub fn open_page_file<V: Vfs>(vfs: &V, path: &str) -> (r: DbResult<PageFile<V::File>>)
    ensures
        vfs.opens_fresh() ==> (r matches Ok(p) && p.file().modeled() && p.file().contents() == Seq::<u8>::empty()),
{
    let file = vfs.open_database(path)?;
    Ok(PageFile::new(file))
}

/// `std::io::Error::from(ErrorKind::UnexpectedEof)`: the error a short read
/// reports. Nothing is claimed of the value.
#[verifier::external_body]
fn unexpected_eof() -> std::io::Error {
    std::io::Error::from(std::io::ErrorKind::UnexpectedEof)
}

/// In-memory file: a growable byte vector.
pub struct MemVfsFile {
    bytes: Vec<u8>,
}

impl View for MemVfsFile {
    type V = Seq<u8>;

    closed spec fn view(&self) -> Seq<u8> {
        self.bytes@
    }
}

impl MemVfsFile {
    /// An empty in-memory file.
    pub fn new() -> (f: Self)
        ensures
            f@ == Seq::<u8>::empty(),
    {
        MemVfsFile { bytes: Vec::new() }
    }

    /// An in-memory file holding `bytes`.
    pub fn from_bytes(bytes: Vec<u8>) -> (f: Self)
        ensures
            f@ == bytes@,
    {
        MemVfsFile { bytes }
    }

    /// Current contents.
    pub fn contents(&self) -> (r: &[u8])
        ensures
            r@ == self@,
    {
        self.bytes.as_slice()
    }
}

impl VfsFile for MemVfsFile {
    open spec fn modeled(&self) -> bool {
        true
    }

    open spec fn contents(&self) -> Seq<u8> {
        self@
    }

    fn len(&self) -> (r: DbResult<u64>) {
        Ok(self.bytes.len() as u64)
    }

    fn read_exact_at(&self, offset: u64, buf: &mut [u8]) -> (r: DbResult<()>) {
        let n = buf.len();
        let len = self.bytes.len();
        if offset > len as u64 || (len as u64 - offset) < n as u64 {
            return Err(DbError::Io(unexpected_eof()));
        }
        let start = offset as usize;
        let mut i: usize = 0;
        while i < n
            invariant
                buf@.len() == n,
                len == self.bytes@.len(),
                start + n <= len,
                start == offset,
                i <= n,
                forall|j: int| 0 <= j < i ==> buf@[j] == self.bytes@[start + j],
            decreases n - i,
        {
            buf[i] = self.bytes[start + i];
            i = i + 1;
        }
        assert(buf@ =~= self@.subrange(offset as int, offset + n));
        Ok(())
    }

    fn write_all_at(&mut self, offset: u64, buf: &[u8]) -> (r: DbResult<()>) {
        let n = buf.len();
        if offset > usize::MAX as u64 || (usize::MAX - offset as usize) < n {
            return Err(user_error("write offset overflow"));
        }
        let ghost c = self.bytes@;
        let start = offset as usize;
        while self.bytes.len() < start + n
            invariant
                start + n <= usize::MAX,
                self.bytes@.len() >= c.len(),
                forall|j: int| 0 <= j < c.len() ==> self.bytes@[j] == c[j],
                forall|j: int| c.len() <= j < self.bytes@.len() ==> self.bytes@[j] == 0u8,
                self.bytes@.len() > c.len() ==> self.bytes@.len() <= start + n,
            decreases start + n - self.bytes@.len(),
        {
            self.bytes.push(0);
        }
        let ghost extended = self.bytes@;
        let mut i: usize = 0;
        while i < n
            invariant
                self.bytes@.len() == extended.len(),
                extended.len() >= start + n,
                start + n <= usize::MAX,
                start == offset,
                n == buf@.len(),
                i <= n,
                forall|j: int| 0 <= j < self.bytes@.len() ==> #[trigger] self.bytes@[j]
                    == if start <= j < start + i { buf@[j - start] } else { extended[j] },
            decreases n - i,
        {
            self.bytes.set(start + i, buf[i]);
            i = i + 1;
        }
        assert(self.bytes@ =~= write_at(c, offset as int, buf@));
        Ok(())
    }

    fn sync_data(&mut self) -> (r: DbResult<()>) {
        Ok(())
    }
}

/// VFS whose files are fresh in-memory files.
pub struct MemVfs;

impl Vfs for MemVfs {
    type File = MemVfsFile;

    open spec fn opens_fresh(&self) -> bool {
        true
    }

    fn open_database(&self, path: &str) -> (r: DbResult<MemVfsFile>) {
        Ok(MemVfsFile::new())
    }
}

} // verus!
