//! Single-writer transaction layer over the catalog store and the WAL.
//!
//! Dirty catalog, heap and index pages are staged in memory, written to the
//! WAL as full page images on commit, and only then copied to the database
//! file. Rollback drops staged pages, so uncommitted inserts and table
//! creates never reach the data file through this API.
//!
//! A transaction must be finished with `commit` or `rollback`; both release
//! the writer slot of the store, also when they fail.

use vstd::prelude::*;
use crate::catalog::{empty_catalog, Catalog, CatalogStore, CatalogView, ColumnDef, HeapRow, RelationKind, scan_rows, heap_rows_view,
    stored_record, heap_page_at, live_rows,
    StorageView, IndexView, RelationView, CATALOG_PAGE, MAX_PAGE_RECORD, open_catalog_store, e_catalog, is_catalog_page,
    has_id, first_with_id, storage_heap_pages, page_ids_view, valid_name, columns_valid, columns_view,
    has_name, has_extension, with_extension, with_new_table, with_heap_page, is_empty_heap_page, first_extension,
    ExtensionView,
    catalog_fits_page};
use crate::index::{BPlusTreePageStore, IndexKey, row_held, leaf_holds, leaf_page, lookup_spec, insert_outcome, root_outcome,
    InsertTrace, EntryView, KeyView, insert_ok, split_key, node_page_ok, new_root_node, page_node};
use crate::page::{slot_live, slot_record, Page, PageType, PAGE_SIZE, page_valid, spec_header, raw_slot_count, first_dead,
    insert_fits, raw_free_start, raw_free_end};
use crate::types::{DbError, DbResult, PageId, RelationId, RowId, SlotId, TxId, user_error, corruption};
use crate::vfs::{Vfs, VfsFile, write_at, spec_page_offset};
use crate::wal::{WalReader, spec_parse_stream, records_view, WalRecordKind, WalWriter, WalKindView, WalRecordView, spec_encode, spec_encoded_len, lemma_encode_layout, WAL_HEADER_SIZE};

verus! {

/// First transaction id produced by a newly opened transaction store.
pub const FIRST_TX_ID: u64 = 1;

/// Staged page images, kept in ascending page-id order.
pub struct DirtyPages {
    ids: Vec<u64>,
    pages: Vec<Page>,
    model: Ghost<Map<u64, Seq<u8>>>,
}

impl View for DirtyPages {
    type V = Map<u64, Seq<u8>>;

    closed spec fn view(&self) -> Map<u64, Seq<u8>> {
        self.model@
    }
}

impl DirtyPages {
    /// Staged page ids, ascending.
    pub closed spec fn ids(&self) -> Seq<u64> {
        self.ids@
    }

    /// Staged page images, in ascending page-id order.
    pub closed spec fn images(&self) -> Seq<Seq<u8>> {
        self.pages@.map_values(|p: Page| p@)
    }

    /// The staged images are pages carrying the staged ids, in order.
    pub proof fn lemma_images(&self)
        requires
            self.wf(),
        ensures
            self.images().len() == self.ids().len(),
            forall|i: int| 0 <= i < self.images().len() ==> (#[trigger] self.images()[i]).len() == PAGE_SIZE
                && spec_header(self.images()[i]).page_id.0 == self.ids()[i],
            forall|i: int| 0 <= i < self.images().len() ==> self.images()[i] == #[trigger] self@[self.ids()[i]],
    {
        assert forall|i: int| 0 <= i < self.images().len() implies (#[trigger] self.images()[i]).len() == PAGE_SIZE
            && spec_header(self.images()[i]).page_id.0 == self.ids()[i] by {
            assert(self.images()[i] == self.pages@[i]@);
            assert(self.pages@[i].wf());
        }
    }

    pub closed spec fn wf(&self) -> bool {
        &&& self.ids@.len() == self.pages@.len()
        &&& forall|i: int, j: int| 0 <= i < j < self.ids@.len() ==> #[trigger] self.ids@[i] < #[trigger] self.ids@[j]
        &&& forall|i: int| 0 <= i < self.pages@.len() ==> #[trigger] self.pages@[i].wf()
        &&& forall|i: int| 0 <= i < self.ids@.len() ==> self.model@.contains_key(#[trigger] self.ids@[i])
            && self.model@[self.ids@[i]] == self.pages@[i]@
        &&& forall|k: u64| #[trigger] self.model@.contains_key(k) ==> self.ids@.contains(k)
        &&& forall|i: int| 0 <= i < self.pages@.len() ==> spec_header(#[trigger] self.pages@[i]@).page_id.0 == self.ids@[i]
    }

    pub fn new() -> (d: Self)
        ensures
            d.wf(),
            d@ == Map::<u64, Seq<u8>>::empty(),
    {
        DirtyPages { ids: Vec::new(), pages: Vec::new(), model: Ghost(Map::empty()) }
    }

    /// Number of staged pages.
    pub fn len(&self) -> (n: usize)
        requires
            self.wf(),
        ensures
            n == self.ids().len(),
            n == self.images().len(),
    {
        self.ids.len()
    }

    fn position(&self, id: u64) -> (r: (usize, bool))
        requires
            self.wf(),
        ensures
            r.0 <= self.ids().len(),
            forall|i: int| 0 <= i < r.0 ==> #[trigger] self.ids()[i] < id,
            r.1 ==> r.0 < self.ids().len() && self.ids()[r.0 as int] == id,
            !r.1 ==> r.0 == self.ids().len() || id < self.ids()[r.0 as int],
            r.1 <==> self@.contains_key(id),
    {
        let mut i: usize = 0;
        while i < self.ids.len()
            invariant
                self.wf(),
                i <= self.ids@.len(),
                forall|j: int| 0 <= j < i ==> #[trigger] self.ids@[j] < id,
            decreases self.ids@.len() - i,
        {
            if self.ids[i] == id {
                return (i, true);
            }
            if id < self.ids[i] {
                proof {
                    if self@.contains_key(id) {
                        let c = choose|c: int| 0 <= c < self.ids@.len() && self.ids@[c] == id;
                        if c > i { assert(self.ids@[i as int] < self.ids@[c]); }
                    }
                }
                return (i, false);
            }
            i = i + 1;
        }
        proof {
            if self@.contains_key(id) {
                let c = choose|c: int| 0 <= c < self.ids@.len() && self.ids@[c] == id;
                assert(self.ids@[c] < id);
            }
        }
        (i, false)
    }

    /// Stage an image for page `id`, replacing an earlier one.
    #[verifier::spinoff_prover]
    pub fn stage(&mut self, id: u64, page: Page)
        requires
            old(self).wf(),
            page.wf(),
            spec_header(page@).page_id.0 == id,
        ensures
            final(self).wf(),
            final(self)@ == old(self)@.insert(id, page@),
    {
        let ghost img = page@;
        let (i, found) = self.position(id);
        let ghost o_ids = self.ids@;
        if found {
            self.pages.set(i, page);
            self.model = Ghost(self.model@.insert(id, img));
            proof {
                assert forall|m: int| 0 <= m < self.ids@.len() implies #[trigger] self.model@.contains_key(self.ids@[m])
                    && self.model@[self.ids@[m]] == self.pages@[m]@ by {
                    if m != i as int {
                        if m < i { assert(o_ids[m] < o_ids[i as int]); } else { assert(o_ids[i as int] < o_ids[m]); }
                    }
                }
            }
        } else {
            self.ids.insert(i, id);
            self.pages.insert(i, page);
            self.model = Ghost(self.model@.insert(id, img));
            proof {
                let n_ids = self.ids@;
                assert(n_ids =~= o_ids.insert(i as int, id));
                assert forall|a: int, b: int| 0 <= a < b < n_ids.len() implies #[trigger] n_ids[a] < #[trigger] n_ids[b] by {
                    if b < i {
                    } else if a < i && b == i {
                    } else if a < i && b > i {
                        assert(n_ids[b] == o_ids[b - 1]);
                        assert(o_ids[i as int] <= o_ids[b - 1]);
                    } else if a == i {
                        assert(n_ids[b] == o_ids[b - 1]);
                        assert(o_ids[i as int] <= o_ids[b - 1]);
                    } else {
                        assert(n_ids[a] == o_ids[a - 1] && n_ids[b] == o_ids[b - 1]);
                    }
                }
                assert forall|m: int| 0 <= m < self.pages@.len() implies #[trigger] self.pages@[m].wf() by {
                    if m < i { assert(self.pages@[m] == old(self).pages@[m]); }
                    else if m > i { assert(self.pages@[m] == old(self).pages@[m - 1]); }
                }
                assert forall|m: int| 0 <= m < n_ids.len() implies #[trigger] self.model@.contains_key(n_ids[m])
                    && self.model@[n_ids[m]] == self.pages@[m]@ by {
                    if m < i {
                        assert(n_ids[m] == o_ids[m] && self.pages@[m] == old(self).pages@[m]);
                    } else if m > i {
                        assert(n_ids[m] == o_ids[m - 1] && self.pages@[m] == old(self).pages@[m - 1]);
                    }
                }
                assert forall|k: u64| #[trigger] self.model@.contains_key(k) implies n_ids.contains(k) by {
                    if k == id {
                        assert(n_ids[i as int] == id);
                    } else {
                        assert(o_ids.contains(k));
                        let c = choose|c: int| 0 <= c < o_ids.len() && o_ids[c] == k;
                        if c < i { assert(n_ids[c] == k); } else { assert(n_ids[c + 1] == k); }
                    }
                }
            }
        }
    }

    /// A copy of the image staged for page `id`.
    pub fn get_copy(&self, id: u64) -> (r: Option<Page>)
        requires
            self.wf(),
        ensures
            self@.contains_key(id) ==> (r matches Some(p) && p@ == self@[id] && p.wf() && spec_header(p@).page_id.0 == id),
            !self@.contains_key(id) ==> r is None,
    {
        let (i, found) = self.position(id);
        if found {
            assert(self.ids@[i as int] == id);
            assert(self.model@[id] == self.pages@[i as int]@);
            assert(self.pages@[i as int].wf());
            let p = self.pages[i].duplicate();
            assert(p@ == self@[id]);
            assert(p.wf());
            Some(p)
        } else {
            None
        }
    }

    /// Borrow the `i`-th staged page, in ascending page-id order.
    pub fn page_at(&self, i: usize) -> (r: &Page)
        requires
            self.wf(),
            i < self.ids().len(),
        ensures
            r.wf(),
            r@ == self@[self.ids()[i as int]],
            r@ == self.images()[i as int],
            spec_header(r@).page_id.0 == self.ids()[i as int],
    {
        &self.pages[i]
    }

    /// Drop every staged page.
    pub fn clear(&mut self)
        ensures
            final(self).wf(),
            final(self)@ == Map::<u64, Seq<u8>>::empty(),
    {
        self.ids.clear();
        self.pages.clear();
        self.model = Ghost(Map::empty());
    }
}

/// The WAL bytes that logging `images` as page images of transaction `tx`
/// adds to a WAL of `start` bytes: one record per image, in order, each at
/// the offset where the one before it ended.
pub open spec fn image_log(start: int, tx: u64, images: Seq<Seq<u8>>) -> Seq<u8>
    decreases images.len(),
{
    if images.len() == 0 {
        Seq::empty()
    } else {
        let prev = image_log(start, tx, images.drop_last());
        let img = images.last();
        prev + spec_encode(WalRecordView {
            lsn: (start + prev.len()) as u64,
            kind: WalKindView::PageImage(tx, spec_header(img).page_id.0, img),
        })
    }
}

/// The page images of `images` followed by the commit marker of `tx`.
pub open spec fn commit_log(start: int, tx: u64, images: Seq<Seq<u8>>) -> Seq<u8> {
    let p = image_log(start, tx, images);
    p + spec_encode(WalRecordView { lsn: (start + p.len()) as u64, kind: WalKindView::CommitTx(tx) })
}

/// Data-file bytes `c` after each image is written at its own page's offset,
/// in order.
pub open spec fn images_written(c: Seq<u8>, images: Seq<Seq<u8>>) -> Seq<u8>
    decreases images.len(),
{
    if images.len() == 0 {
        c
    } else {
        let img = images.last();
        write_at(images_written(c, images.drop_last()), spec_page_offset(spec_header(img).page_id), img)
    }
}

/// Writing page images with ascending page ids, each of one page and carrying
/// its id, leaves each image at its page's offset.
pub proof fn lemma_images_written_at(c: Seq<u8>, imgs: Seq<Seq<u8>>, ids: Seq<u64>)
    requires
        imgs.len() == ids.len(),
        forall|i: int| 0 <= i < imgs.len() ==> (#[trigger] imgs[i]).len() == PAGE_SIZE,
        forall|i: int| 0 <= i < imgs.len() ==> spec_header(#[trigger] imgs[i]).page_id.0 == ids[i],
        forall|i: int, j: int| 0 <= i < j < ids.len() ==> #[trigger] ids[i] < #[trigger] ids[j],
    ensures
        forall|i: int| 0 <= i < ids.len() ==> {
            let off = spec_page_offset(PageId(#[trigger] ids[i]));
            &&& off + PAGE_SIZE <= images_written(c, imgs).len()
            &&& images_written(c, imgs).subrange(off, off + PAGE_SIZE) == imgs[i]
        },
    decreases imgs.len(),
{
    if imgs.len() > 0 {
        let n = imgs.len() - 1;
        let d = imgs.drop_last();
        let dids = ids.drop_last();
        assert forall|i: int| 0 <= i < d.len() implies (#[trigger] d[i]).len() == PAGE_SIZE by {
            assert(d[i] == imgs[i]);
        }
        assert forall|i: int| 0 <= i < d.len() implies spec_header(#[trigger] d[i]).page_id.0 == dids[i] by {
            assert(d[i] == imgs[i]);
        }
        assert forall|i: int, j: int| 0 <= i < j < dids.len() implies #[trigger] dids[i] < #[trigger] dids[j] by {
            assert(dids[i] == ids[i] && dids[j] == ids[j]);
        }
        lemma_images_written_at(c, d, dids);
        let prev = images_written(c, d);
        let last = imgs[n];
        assert(imgs.last() == last);
        assert(spec_header(last).page_id == PageId(ids[n]));
        let off_last = spec_page_offset(PageId(ids[n]));
        let w = images_written(c, imgs);
        assert(w == write_at(prev, off_last, last));
        assert forall|i: int| 0 <= i < ids.len() implies {
            let off = spec_page_offset(PageId(#[trigger] ids[i]));
            &&& off + PAGE_SIZE <= w.len()
            &&& w.subrange(off, off + PAGE_SIZE) == imgs[i]
        } by {
            let off = spec_page_offset(PageId(ids[i]));
            if i == n {
                assert(w.subrange(off, off + PAGE_SIZE) =~= last);
            } else {
                assert(dids[i] == ids[i] && d[i] == imgs[i]);
                assert(ids[i] < ids[n]);
                assert(ids[i] * PAGE_SIZE + PAGE_SIZE <= ids[n] * PAGE_SIZE) by (nonlinear_arith)
                    requires ids[i] < ids[n];
                crate::vfs::lemma_write_at_frame(prev, off_last, last, off, off + PAGE_SIZE);
            }
        }
    }
}

/// Runtime state for a transaction handle.
#[derive(Clone, Copy, Debug, PartialEq, Eq, Structural)]
pub enum TransactionState {
    /// The transaction may still accept writes.
    Active,
    /// The transaction committed successfully.
    Committed,
    /// The transaction was explicitly rolled back.
    RolledBack,
}

pub struct TxStoreView {
    pub catalog: CatalogView,
    pub next_tx_id: u64,
    pub active_writer: bool,
}

/// Catalog and heap handle with a WAL-backed transaction boundary.
pub struct TransactionalStore<F: VfsFile> {
    store: CatalogStore<F>,
    wal: WalWriter<F>,
    next_tx_id: u64,
    active_writer: bool,
}

impl<F: VfsFile> View for TransactionalStore<F> {
    type V = TxStoreView;

    closed spec fn view(&self) -> TxStoreView {
        TxStoreView { catalog: self.store@, next_tx_id: self.next_tx_id, active_writer: self.active_writer }
    }
}

/// What a full scan of relation `id` answers over a modeled data file: for a
/// heap table, exactly its stored rows, page by page and slot by slot.
pub open spec fn scan_outcome<F: VfsFile>(c: CatalogView, file: F, id: u64, r: DbResult<Vec<HeapRow>>) -> bool {
    has_id(c.relations, id) && file.modeled() ==> exists|i: int| #[trigger] first_with_id(c.relations, id, i) && (
        c.relations[i].kind == RelationKind::Table ==> {
            let pages = storage_heap_pages(c.relations[i].storage);
            match scan_rows(file.contents(), pages, pages.len() as int) {
                Some(rows) => r matches Ok(x) && heap_rows_view(x@) == rows,
                None => r is Err,
            }
        })
}

/// The page image at page `id` of data-file bytes `c`, when one is there:
/// valid and carrying that id.
pub open spec fn file_page(c: Seq<u8>, id: u64) -> Option<Seq<u8>> {
    let off = spec_page_offset(PageId(id));
    if off <= u64::MAX && off + PAGE_SIZE <= c.len() && page_valid(c.subrange(off, off + PAGE_SIZE))
        && spec_header(c.subrange(off, off + PAGE_SIZE)).page_id == PageId(id) {
        Some(c.subrange(off, off + PAGE_SIZE))
    } else {
        None
    }
}

/// The page images of data-file bytes `c`, by page id.
pub open spec fn file_pages(c: Seq<u8>) -> Map<u64, Seq<u8>> {
    Map::new(|id: u64| file_page(c, id) is Some, |id: u64| file_page(c, id)->0)
}

/// Page store over committed pages, for read-only index lookups.
struct CommittedIndexPageStore<'a, F: VfsFile> {
    store: &'a CatalogStore<F>,
}

impl<'a, F: VfsFile> BPlusTreePageStore for CommittedIndexPageStore<'a, F> {
    closed spec fn modeled(&self) -> bool {
        self.store.pages().file().modeled()
    }

    closed spec fn pages(&self) -> Map<u64, Seq<u8>> {
        file_pages(self.store.pages().file().contents())
    }

    fn load_page(&mut self, page_id: PageId) -> (r: DbResult<Page>) {
        let r = self.store.page_file().read_page(page_id);
        assert(PageId(page_id.0) == page_id);
        r
    }

    fn store_page(&mut self, page: Page) -> (r: DbResult<()>) {
        Err(DbError::InternalInvariant("read-only index page store cannot write pages"))
    }

    fn allocate_page(&mut self) -> (r: DbResult<PageId>) {
        Err(DbError::InternalInvariant("read-only index page store cannot allocate pages"))
    }
}

/// Root page of the index relation with id `id`: the first relation with that
/// id, when its storage is a B+Tree.
pub open spec fn index_root(c: CatalogView, id: u64) -> Option<u64> {
    if has_id(c.relations, id) {
        match c.relations[choose|i: int| first_with_id(c.relations, id, i)].storage {
            StorageView::BPlusTree(ix) => Some(ix.root_page_id),
            StorageView::Heap(_) => None,
        }
    } else {
        None
    }
}

fn index_root_of(catalog: &Catalog, index_relation_id: RelationId) -> (r: DbResult<PageId>)
    ensures
        match index_root(catalog@, index_relation_id.0) {
            Some(root) => r == Ok::<PageId, DbError>(PageId(root)),
            None => r is Err && r->Err_0 is User,
        },
{
    match catalog.relation_by_id(index_relation_id) {
        Some(relation) => {
            proof {
                let i = choose|i: int| first_with_id(catalog@.relations, index_relation_id.0, i);
                let j = choose|j: int| #[trigger] first_with_id(catalog@.relations, index_relation_id.0, j) && relation@ == catalog@.relations[j];
                if i != j {
                    if i < j { assert(catalog@.relations[i].id == index_relation_id.0); }
                    else { assert(catalog@.relations[j].id == index_relation_id.0); }
                }
            }
            match relation.index_storage() {
                Some(storage) => Ok(storage.root_page_id()),
                None => Err(user_error("unknown index relation id")),
            }
        },
        None => Err(user_error("unknown index relation id")),
    }
}

/// Append a page-image record for every staged page, in ascending page-id
/// order.
fn log_staged_pages<F: VfsFile>(wal: &mut WalWriter<F>, tx_id: TxId, dirty: &DirtyPages) -> (r: DbResult<()>)
    requires
        dirty.wf(),
    ensures
        old(wal).in_sync() && r is Ok ==> final(wal).in_sync()
            && final(wal).file().contents() == old(wal).file().contents()
                + image_log(old(wal).file().contents().len() as int, tx_id.0, dirty.images()),
        old(wal).in_sync() && pages_writable(dirty.ids(), dirty.images())
            && old(wal).file().contents().len() + image_log(old(wal).file().contents().len() as int, tx_id.0, dirty.images()).len()
                <= usize::MAX ==> r is Ok,
{
    let n = dirty.len();
    let ghost imgs = dirty.images();
    let ghost w0 = wal.file().contents();
    let mut i: usize = 0;
    while i < n
        invariant
            dirty.wf(),
            n == dirty.ids().len(),
            imgs == dirty.images(),
            i <= n,
            w0 == old(wal).file().contents(),
            old(wal).in_sync() ==> wal.in_sync()
                && wal.file().contents() == w0 + image_log(w0.len() as int, tx_id.0, imgs.take(i as int)),
        decreases n - i,
    {
        proof {
            if old(wal).in_sync() && pages_writable(dirty.ids(), imgs)
                && w0.len() + image_log(w0.len() as int, tx_id.0, imgs).len() <= usize::MAX {
                assert(page_valid(imgs[i as int]));
                lemma_image_log_prefix_len(w0.len() as int, tx_id.0, imgs, i + 1);
                lemma_image_log_step_len(w0.len() as int, tx_id.0, imgs, i as int);
            }
        }
        let kind = WalRecordKind::page_image(tx_id, dirty.page_at(i))?;
        let ghost kv = kind@;
        let ghost before = wal.file().contents();
        wal.append(kind)?;
        proof {
            if old(wal).in_sync() {
                lemma_image_log_step(w0, tx_id.0, imgs, i as int, before, kv, wal.file().contents());
            }
        }
        i = i + 1;
    }
    proof { assert(imgs.take(n as int) =~= imgs); }
    Ok(())
}

/// The log of the first `i + 1` images is that of the first `i` and one
/// record of the page-image size.
proof fn lemma_image_log_step_len(start: int, tx: u64, imgs: Seq<Seq<u8>>, i: int)
    requires
        0 <= i < imgs.len(),
        imgs[i].len() == PAGE_SIZE,
    ensures
        image_log(start, tx, imgs.take(i + 1)).len() == image_log(start, tx, imgs.take(i)).len()
            + spec_encoded_len(WalKindView::PageImage(tx, spec_header(imgs[i]).page_id.0, imgs[i])),
{
    let t = imgs.take(i + 1);
    assert(t.drop_last() =~= imgs.take(i));
    assert(t.last() == imgs[i]);
    let p = image_log(start, tx, imgs.take(i));
    let rec = WalRecordView { lsn: (start + p.len()) as u64, kind: WalKindView::PageImage(tx, spec_header(imgs[i]).page_id.0, imgs[i]) };
    lemma_encode_layout(rec);
}

/// After the log of the first `i` images, appending the record of image `i`
/// at the end gives the log of the first `i + 1` images.
proof fn lemma_image_log_step(w0: Seq<u8>, tx: u64, imgs: Seq<Seq<u8>>, i: int, before: Seq<u8>, kv: WalKindView, after: Seq<u8>)
    requires
        0 <= i < imgs.len(),
        before == w0 + image_log(w0.len() as int, tx, imgs.take(i)),
        kv == WalKindView::PageImage(tx, spec_header(imgs[i]).page_id.0, imgs[i]),
        after == before + spec_encode(WalRecordView { lsn: before.len() as u64, kind: kv }),
    ensures
        after == w0 + image_log(w0.len() as int, tx, imgs.take(i + 1)),
{
    let t = imgs.take(i + 1);
    assert(t.drop_last() =~= imgs.take(i));
    assert(t.last() == imgs[i]);
    let p = image_log(w0.len() as int, tx, imgs.take(i));
    assert(before.len() == w0.len() + p.len());
    assert(image_log(w0.len() as int, tx, t) == p + spec_encode(WalRecordView { lsn: (w0.len() + p.len()) as u64, kind: kv }));
    assert(after =~= w0 + image_log(w0.len() as int, tx, t));
}

/// Every staged image is a valid page whose page lies within the platform's
/// address range.
pub open spec fn pages_writable(ids: Seq<u64>, imgs: Seq<Seq<u8>>) -> bool {
    forall|i: int| 0 <= i < imgs.len() ==> page_valid(#[trigger] imgs[i])
        && spec_page_offset(PageId(ids[i])) + PAGE_SIZE <= usize::MAX
}

/// The log of a prefix of the images is no longer than the log of them all.
proof fn lemma_image_log_prefix_len(start: int, tx: u64, imgs: Seq<Seq<u8>>, j: int)
    requires
        0 <= j <= imgs.len(),
    ensures
        image_log(start, tx, imgs.take(j)).len() <= image_log(start, tx, imgs).len(),
    decreases imgs.len() - j,
{
    if j < imgs.len() {
        lemma_image_log_prefix_len(start, tx, imgs, j + 1);
        let t = imgs.take(j + 1);
        assert(t.drop_last() =~= imgs.take(j));
    } else {
        assert(imgs.take(j) =~= imgs);
    }
}

/// Write every staged page to the data file, in ascending page-id order.
fn write_staged_pages<F: VfsFile>(store: &mut CatalogStore<F>, dirty: &DirtyPages) -> (r: DbResult<()>)
    requires
        dirty.wf(),
    ensures
        final(store)@ == old(store)@,
        final(store).pages().file().modeled() == old(store).pages().file().modeled(),
        old(store).pages().file().modeled() && r is Ok
            ==> final(store).pages().file().contents() == images_written(old(store).pages().file().contents(), dirty.images()),
        old(store).pages().file().modeled() && pages_writable(dirty.ids(), dirty.images()) ==> r is Ok,
{
    let n = dirty.len();
    let ghost imgs = dirty.images();
    let ghost d0 = store.pages().file().contents();
    let mut k: usize = 0;
    while k < n
        invariant
            dirty.wf(),
            n == dirty.ids().len(),
            imgs == dirty.images(),
            k <= n,
            store@ == old(store)@,
            store.pages().file().modeled() == old(store).pages().file().modeled(),
            d0 == old(store).pages().file().contents(),
            store.pages().file().modeled() ==> store.pages().file().contents() == images_written(d0, imgs.take(k as int)),
        decreases n - k,
    {
        proof {
            if old(store).pages().file().modeled() && pages_writable(dirty.ids(), imgs) {
                assert(page_valid(imgs[k as int]));
            }
        }
        store.page_file_mut().write_page(dirty.page_at(k))?;
        proof {
            let t = imgs.take(k as int + 1);
            assert(t.drop_last() =~= imgs.take(k as int));
        }
        k = k + 1;
    }
    proof { assert(imgs.take(n as int) =~= imgs); }
    Ok(())
}

impl<F: VfsFile> TransactionalStore<F> {
    /// Create a transactional store from an opened catalog store and WAL writer.
    pub fn new(store: CatalogStore<F>, wal: WalWriter<F>) -> (s: Self)
        ensures
            s@ == (TxStoreView { catalog: store@, next_tx_id: FIRST_TX_ID, active_writer: false }),
            s.data_file() == store.pages().file(),
            s.wal_file() == wal.file(),
            s.wal_in_sync() == wal.in_sync(),
    {
        TransactionalStore { store, wal, next_tx_id: FIRST_TX_ID, active_writer: false }
    }

    /// Open a store over a catalog store and an existing WAL file: the
    /// transaction ids continue past every transaction id the WAL holds, so
    /// that recovery never takes a new transaction's records for an older
    /// one's.
    pub fn resume(store: CatalogStore<F>, wal_file: F) -> (r: DbResult<Self>)
        ensures
            r matches Ok(s) ==> s@.catalog == store@ && !s@.active_writer && s@.next_tx_id >= FIRST_TX_ID
                && s.data_file() == store.pages().file() && s.wal_file() == wal_file
                && (wal_file.modeled() ==> s.wal_in_sync()),
            wal_file.modeled() && wal_file.contents().len() <= usize::MAX ==> match spec_parse_stream(wal_file.contents(), 0) {
                Some(rs) => r matches Ok(s) && (forall|i: int| 0 <= i < rs.len() ==> (kind_tx(#[trigger] rs[i].kind) matches Some(t)
                    ==> t < s@.next_tx_id || s@.next_tx_id == u64::MAX))
                    && (rs.len() == 0 ==> s@.next_tx_id == FIRST_TX_ID),
                None => r matches Err(e) && e is Corruption,
            },
    {
        let reader = WalReader::new(wal_file);
        let records = reader.read_all()?;
        let wal_file = reader.into_inner();
        let ghost rs = records_view(records@);
        let mut next: u64 = FIRST_TX_ID;
        let mut i: usize = 0;
        while i < records.len()
            invariant
                i <= records@.len(),
                rs == records_view(records@),
                next >= FIRST_TX_ID,
                records@.len() == 0 ==> next == FIRST_TX_ID,
                forall|j: int| 0 <= j < i ==> (kind_tx(#[trigger] rs[j].kind) matches Some(t) ==> t < next || next == u64::MAX),
            decreases records@.len() - i,
        {
            let t: Option<u64> = match &records[i].kind {
                WalRecordKind::BeginTx { tx_id } => Some(tx_id.0),
                WalRecordKind::PageImage { tx_id, .. } => Some(tx_id.0),
                WalRecordKind::CommitTx { tx_id } => Some(tx_id.0),
                WalRecordKind::AbortTx { tx_id } => Some(tx_id.0),
                WalRecordKind::Checkpoint => None,
            };
            proof { assert(rs[i as int] == records@[i as int]@); }
            if let Some(t) = t {
                if t >= next {
                    next = if t < u64::MAX { t + 1 } else { u64::MAX };
                }
            }
            i = i + 1;
        }
        let wal = WalWriter::new(wal_file)?;
        Ok(TransactionalStore { store, wal, next_tx_id: next, active_writer: false })
    }

    /// Borrow the committed catalog snapshot.
    pub fn catalog(&self) -> (r: &Catalog)
        ensures
            r@ == self@.catalog,
    {
        self.store.catalog()
    }

    /// The data file under the committed pages.
    pub closed spec fn data_file(&self) -> F {
        self.store.pages().file()
    }

    /// The file the WAL writer appends to.
    pub closed spec fn wal_file(&self) -> F {
        self.wal.file()
    }

    /// The WAL file is modeled and the writer appends at its end.
    pub closed spec fn wal_in_sync(&self) -> bool {
        self.wal.in_sync()
    }

    /// The store can run a transaction of its own that stages up to two
    /// pages: no writer is active, a transaction id is left, the data file is
    /// modeled, and the WAL is appended at its end with room for the begin
    /// record, two page images and the commit record.
    pub open spec fn ready(&self) -> bool {
        &&& !self@.active_writer
        &&& self@.next_tx_id < u64::MAX
        &&& self.wal_in_sync()
        &&& self.data_file().modeled()
        &&& self.wal_file().contents().len() + 4 * WAL_HEADER_SIZE + 2 * PAGE_SIZE <= usize::MAX
    }

    /// Scan committed heap rows for a relation.
    pub fn full_scan(&self, relation_id: RelationId) -> (r: DbResult<Vec<HeapRow>>)
        ensures
            scan_outcome(self@.catalog, self.data_file(), relation_id.0, r),
            !has_id(self@.catalog.relations, relation_id.0) ==> r is Err && r->Err_0 is User,
            has_id(self@.catalog.relations, relation_id.0) ==> exists|i: int| #[trigger] first_with_id(self@.catalog.relations, relation_id.0, i) && {
                &&& self@.catalog.relations[i].kind != RelationKind::Table ==> r is Err && r->Err_0 is User
                &&& r matches Ok(rows) ==> forall|k: int| 0 <= k < rows@.len() ==>
                    storage_heap_pages(self@.catalog.relations[i].storage).contains(#[trigger] rows@[k].row_id.page_id.0)
            },
    {
        self.store.full_scan(relation_id)
    }

    /// Read one committed heap row by physical row id.
    pub fn read_row(&self, relation_id: RelationId, row_id: RowId) -> (r: DbResult<Option<HeapRow>>)
        ensures
            !has_id(self@.catalog.relations, relation_id.0) ==> r is Err && r->Err_0 is User,
            has_id(self@.catalog.relations, relation_id.0) ==> exists|i: int| #[trigger] first_with_id(self@.catalog.relations, relation_id.0, i) && {
                &&& self@.catalog.relations[i].kind != RelationKind::Table ==> r is Err && r->Err_0 is User
                &&& !storage_heap_pages(self@.catalog.relations[i].storage).contains(row_id.page_id.0) ==> r is Err && r->Err_0 is User
                &&& self.data_file().modeled() && self@.catalog.relations[i].kind == RelationKind::Table
                    && storage_heap_pages(self@.catalog.relations[i].storage).contains(row_id.page_id.0)
                    && heap_page_at(self.data_file().contents(), row_id.page_id)
                    ==> match stored_record(self.data_file().contents(), row_id) {
                        Some(b) => r matches Ok(Some(row)) && row.bytes@ == b,
                        None => r matches Ok(None) || r is Err,
                    }
            },
            r matches Ok(Some(row)) ==> row.row_id == row_id,
            self.data_file().modeled() ==> (r matches Ok(Some(row)) ==> stored_record(self.data_file().contents(), row_id) == Some(row.bytes@)),
            self.data_file().modeled() ==> (r matches Ok(None) ==> stored_record(self.data_file().contents(), row_id) is None),
    {
        self.store.read_row(relation_id, row_id)
    }

    /// Look up row ids through a committed B+Tree index relation.
    pub fn lookup_index(&mut self, index_relation_id: RelationId, key: &IndexKey) -> (r: DbResult<Vec<RowId>>)
        ensures
            index_root(old(self)@.catalog, index_relation_id.0) is None ==> r is Err && r->Err_0 is User,
            final(self)@ == old(self)@,
            final(self).data_file() == old(self).data_file(),
            old(self).data_file().modeled() ==> (r matches Ok(rows) ==> forall|j: int| 0 <= j < rows@.len()
                ==> #[trigger] row_held(file_pages(old(self).data_file().contents()), key@, rows@[j])),
            old(self).data_file().modeled() ==> match index_root(old(self)@.catalog, index_relation_id.0) {
                Some(root) => match lookup_spec(file_pages(old(self).data_file().contents()), root, key@) {
                    Some(rows) => r matches Ok(x) && x@ == rows,
                    None => r is Err,
                },
                None => r is Err,
            },
    {
        let root_page_id = index_root_of(self.store.catalog(), index_relation_id)?;
        let mut page_store = CommittedIndexPageStore { store: &self.store };
        crate::index::lookup(&mut page_store, root_page_id, key)
    }

    fn allocate_tx_id(&mut self) -> (r: DbResult<TxId>)
        ensures
            old(self)@.next_tx_id == u64::MAX ==> r is Err && r->Err_0 is User && final(self)@ == old(self)@,
            old(self)@.next_tx_id < u64::MAX ==> r == Ok::<TxId, DbError>(TxId(old(self)@.next_tx_id))
                && final(self)@ == (TxStoreView { next_tx_id: (old(self)@.next_tx_id + 1) as u64, ..old(self)@ }),
            final(self).store == old(self).store,
            final(self).wal == old(self).wal,
    {
        let tx_id = self.next_tx_id;
        if tx_id == u64::MAX {
            return Err(user_error("transaction id overflow"));
        }
        self.next_tx_id = tx_id + 1;
        Ok(TxId(tx_id))
    }

    fn finish_writer(&mut self)
        ensures
            final(self)@ == (TxStoreView { active_writer: false, ..old(self)@ }),
            final(self).store == old(self).store,
            final(self).wal == old(self).wal,
    {
        self.active_writer = false;
    }

    /// Start one write transaction. Only one can be active at a time: the
    /// writer slot stays taken until the transaction is finished with
    /// `commit`, `rollback` or `abandon`. A transaction dropped without one of
    /// them keeps the slot, and every later `begin` is refused as retryable.
    pub fn begin(&mut self) -> (r: DbResult<Transaction<'_, F>>)
        ensures
            !old(self)@.active_writer && old(self)@.next_tx_id < u64::MAX && old(self).wal_in_sync()
                && old(self).wal_file().contents().len() + spec_encoded_len(WalKindView::BeginTx(old(self)@.next_tx_id)) <= usize::MAX
                ==> r is Ok,
            old(self)@.active_writer ==> r is Err && r->Err_0 is Retryable && final(self)@ == old(self)@,
            !old(self)@.active_writer && old(self)@.next_tx_id == u64::MAX ==> r is Err && r->Err_0 is User && final(self)@ == old(self)@,
            !old(self)@.active_writer && old(self)@.next_tx_id < u64::MAX && r is Err ==> final(self)@ == (TxStoreView {
                next_tx_id: (old(self)@.next_tx_id + 1) as u64,
                ..old(self)@
            }),
            r matches Ok(tx) ==> {
                &&& tx.wf()
                &&& tx.spec_tx_id() == old(self)@.next_tx_id
                &&& tx.spec_state() == TransactionState::Active
                &&& tx.working() == old(self)@.catalog
                &&& tx.dirty() == Map::<u64, Seq<u8>>::empty()
                &&& tx.store_now() == (TxStoreView {
                    next_tx_id: (old(self)@.next_tx_id + 1) as u64,
                    active_writer: true,
                    ..old(self)@
                })
                &&& *final(self) == *final(tx.manager)
                &&& tx.manager.data_file() == old(self).data_file()
                &&& old(self).wal_in_sync() ==> tx.manager.wal_in_sync()
                    && tx.manager.wal_file().contents() == old(self).wal_file().contents() + spec_encode(WalRecordView {
                        lsn: old(self).wal_file().contents().len() as u64,
                        kind: WalKindView::BeginTx(old(self)@.next_tx_id),
                    })
            },
    {
        if self.active_writer {
            return Err(DbError::Retryable("a write transaction is already active".to_string()));
        }
        let tx_id = self.allocate_tx_id()?;
        self.active_writer = true;
        if let Err(error) = self.wal.append(WalRecordKind::BeginTx { tx_id }) {
            self.active_writer = false;
            return Err(error);
        }
        let working_catalog = self.store.catalog().snapshot();
        Ok(Transaction {
            manager: self,
            tx_id,
            working_catalog,
            dirty_pages: DirtyPages::new(),
            state: TransactionState::Active,
        })
    }

    /// Log every staged page and a commit marker, sync the WAL, then write
    /// the pages to the data file and sync it.
    fn write_committed_pages(&mut self, tx_id: TxId, dirty: &DirtyPages) -> (r: DbResult<()>)
        requires
            dirty.wf(),
        ensures
            final(self)@ == old(self)@,
            old(self).wal_in_sync() && old(self).data_file().modeled() ==> {
                let logged = old(self).wal_file().contents()
                    + commit_log(old(self).wal_file().contents().len() as int, tx_id.0, dirty.images());
                &&& r is Ok ==> final(self).wal_file().contents() == logged
                    && final(self).data_file().contents() == images_written(old(self).data_file().contents(), dirty.images())
                &&& final(self).data_file().contents() != old(self).data_file().contents()
                    ==> final(self).wal_file().contents() == logged
                &&& r is Ok ==> forall|i: int| 0 <= i < dirty.ids().len() ==> {
                    let off = spec_page_offset(PageId(#[trigger] dirty.ids()[i]));
                    &&& off + PAGE_SIZE <= final(self).data_file().contents().len()
                    &&& final(self).data_file().contents().subrange(off, off + PAGE_SIZE) == dirty.images()[i]
                }
                &&& pages_writable(dirty.ids(), dirty.images())
                    && logged.len() <= usize::MAX ==> r is Ok
            },
    {
        let ghost imgs = dirty.images();
        let ghost w0 = self.wal.file().contents();
        let ghost sync0 = self.wal.in_sync() && self.store.pages().file().modeled();
        let ghost ok0 = sync0 && pages_writable(dirty.ids(), imgs)
            && w0.len() + commit_log(w0.len() as int, tx_id.0, imgs).len() <= usize::MAX;
        log_staged_pages(&mut self.wal, tx_id, dirty)?;
        proof {
            if ok0 {
                let p = image_log(w0.len() as int, tx_id.0, imgs);
                lemma_encode_layout(WalRecordView { lsn: (w0.len() + p.len()) as u64, kind: WalKindView::CommitTx(tx_id.0) });
            }
        }
        self.wal.append(WalRecordKind::CommitTx { tx_id })?;
        self.wal.sync_data()?;
        let ghost w1 = self.wal.file().contents();
        let ghost wal1 = self.wal;
        assert(sync0 ==> w1 == w0 + commit_log(w0.len() as int, tx_id.0, imgs));
        write_staged_pages(&mut self.store, dirty)?;
        proof {
            dirty.lemma_images();
            lemma_images_written_at(old(self).data_file().contents(), dirty.images(), dirty.ids());
        }
        self.store.sync_data()?;
        Ok(())
    }

    /// Force both database and WAL files through their VFS sync boundaries.
    pub fn sync_data(&mut self) -> (r: DbResult<()>)
        ensures
            final(self)@ == old(self)@,
            final(self).data_file().modeled() == old(self).data_file().modeled(),
            old(self).data_file().modeled() ==> final(self).data_file().contents() == old(self).data_file().contents(),
            final(self).wal_file().modeled() == old(self).wal_file().modeled(),
            old(self).wal_file().modeled() ==> final(self).wal_file().contents() == old(self).wal_file().contents(),
            old(self).data_file().modeled() && old(self).wal_file().modeled() ==> r is Ok,
    {
        self.store.sync_data()?;
        self.wal.sync_data()
    }

    /// Consume the handle and return the catalog store plus WAL writer.
    pub fn into_parts(self) -> (r: (CatalogStore<F>, WalWriter<F>))
        ensures
            r.0@ == self@.catalog,
    {
        (self.store, self.wal)
    }
}

/// Open catalog data and WAL files through one VFS implementation.
pub fn open_transactional_store<V: Vfs>(vfs: &V, data_path: &str, wal_path: &str) -> (r: DbResult<TransactionalStore<V::File>>)
    ensures
        r matches Ok(s) ==> s@.next_tx_id >= FIRST_TX_ID && !s@.active_writer,
        vfs.opens_fresh() ==> (r matches Ok(s) && s@.catalog == empty_catalog() && s.data_file().modeled()
            && s.wal_in_sync() && s.wal_file().contents() == Seq::<u8>::empty() && s@.next_tx_id == FIRST_TX_ID),
{
    let store = open_catalog_store(vfs, data_path)?;
    let wal_file = vfs.open_database(wal_path)?;
    proof {
        if vfs.opens_fresh() {
            assert(spec_parse_stream(wal_file.contents(), 0) == Some(Seq::<WalRecordView>::empty()));
        }
    }
    TransactionalStore::resume(store, wal_file)
}

/// The transaction a WAL record kind belongs to, if any.
pub open spec fn kind_tx(k: WalKindView) -> Option<u64> {
    match k {
        WalKindView::BeginTx(t) => Some(t),
        WalKindView::PageImage(t, _, _) => Some(t),
        WalKindView::CommitTx(t) => Some(t),
        WalKindView::AbortTx(t) => Some(t),
        WalKindView::Checkpoint => None,
    }
}

/// Active write transaction. Finish it with `commit`, `rollback` or
/// `abandon`; each releases the store's writer slot.
pub struct Transaction<'a, F: VfsFile> {
    /// The store this transaction writes to.
    pub manager: &'a mut TransactionalStore<F>,
    /// Transaction id assigned by the manager.
    pub tx_id: TxId,
    /// Transaction-local copy of the catalog.
    pub working_catalog: Catalog,
    /// Staged page images.
    pub dirty_pages: DirtyPages,
    /// Runtime state.
    pub state: TransactionState,
}

impl<'a, F: VfsFile> Transaction<'a, F> {
    pub closed spec fn wf(&self) -> bool {
        self.dirty_pages.wf()
    }

    /// The store as it is now.
    pub open spec fn store_now(&self) -> TxStoreView {
        self.manager@
    }

    /// Transaction-local catalog.
    pub closed spec fn working(&self) -> CatalogView {
        self.working_catalog@
    }

    /// Staged page images by page id.
    pub closed spec fn dirty(&self) -> Map<u64, Seq<u8>> {
        self.dirty_pages@
    }

    pub closed spec fn spec_state(&self) -> TransactionState {
        self.state
    }

    pub closed spec fn spec_tx_id(&self) -> u64 {
        self.tx_id.0
    }

    /// Staged page images, in ascending page-id order.
    pub closed spec fn staged(&self) -> Seq<Seq<u8>> {
        self.dirty_pages.images()
    }

    /// Staged page ids, in ascending order.
    pub closed spec fn staged_ids(&self) -> Seq<u64> {
        self.dirty_pages.ids()
    }

    /// The staged images are the staged pages' images in ascending id order.
    pub proof fn lemma_staged(&self)
        requires
            self.wf(),
        ensures
            self.staged().len() == self.staged_ids().len(),
            forall|i: int, j: int| 0 <= i < j < self.staged_ids().len() ==> #[trigger] self.staged_ids()[i] < #[trigger] self.staged_ids()[j],
            forall|i: int| 0 <= i < self.staged_ids().len() ==> self.dirty().contains_key(#[trigger] self.staged_ids()[i])
                && self.dirty()[self.staged_ids()[i]] == self.staged()[i],
            forall|k: u64| #[trigger] self.dirty().contains_key(k) ==> self.staged_ids().contains(k),
            forall|i: int| 0 <= i < self.staged().len() ==> (#[trigger] self.staged()[i]).len() == PAGE_SIZE
                && spec_header(self.staged()[i]).page_id.0 == self.staged_ids()[i],
    {
        self.dirty_pages.lemma_images();
    }

    /// Whether the data file under the transaction models its contents.
    pub closed spec fn file_modeled(&self) -> bool {
        self.manager.data_file().modeled()
    }

    /// The pages the transaction sees: its staged pages over the pages of the
    /// data file.
    pub closed spec fn tx_pages(&self) -> Map<u64, Seq<u8>> {
        file_pages(self.manager.data_file().contents()).union_prefer_right(self.dirty_pages@)
    }

    /// Every page the transaction sees has an id below the working catalog's
    /// next page id, so that page allocation hands out unused ids.
    pub open spec fn pages_below_next(&self) -> bool {
        forall|id: u64| #[trigger] self.tx_pages().contains_key(id) ==> id < self.working().next_page_id
    }

    /// Entries can be filed in the transaction's indexes and traced: the data
    /// file is modeled, every page the transaction sees is below the next
    /// page id, which is not the catalog page's, and the catalog page holds no
    /// leaf.
    pub open spec fn filing_ready(&self) -> bool {
        &&& self.file_modeled()
        &&& pages_filing_ready(self.tx_pages(), self.working().next_page_id)
    }

    /// The staged catalog page, if any, holds the working catalog.
    pub open spec fn catalog_page_current(&self) -> bool {
        self.dirty().contains_key(CATALOG_PAGE) ==> is_catalog_page(self.dirty()[CATALOG_PAGE], e_catalog(self.working()))
    }

    /// Transaction id assigned by the manager.
    pub fn tx_id(&self) -> (r: TxId)
        ensures
            r.0 == self.spec_tx_id(),
    {
        self.tx_id
    }

    /// Current transaction state.
    pub fn state(&self) -> (r: TransactionState)
        ensures
            r == self.spec_state(),
    {
        self.state
    }

    /// Borrow the transaction-local catalog snapshot.
    pub fn catalog(&self) -> (r: &Catalog)
        ensures
            r@ == self.working(),
    {
        &self.working_catalog
    }

    fn ensure_active(&self) -> (r: DbResult<()>)
        ensures
            r is Ok <==> self.spec_state() == TransactionState::Active,
            r is Err ==> r->Err_0 is User,
    {
        if self.state == TransactionState::Active {
            Ok(())
        } else {
            Err(user_error("transaction is no longer active"))
        }
    }

    fn mark_catalog_dirty(&mut self) -> (r: DbResult<()>)
        requires
            old(self).wf(),
        ensures
            final(self).wf(),
            final(self).working() == old(self).working(),
            final(self).spec_state() == old(self).spec_state(),
            final(self).spec_tx_id() == old(self).spec_tx_id(),
            final(self).store_now() == old(self).store_now(),
            final(self).manager == old(self).manager,
            r is Ok <==> catalog_fits_page(old(self).working()),
            r is Err ==> final(self).dirty() == old(self).dirty() && r->Err_0 is User,
            r is Ok ==> final(self).dirty().dom() == old(self).dirty().dom().insert(CATALOG_PAGE),
            r is Ok ==> final(self).dirty().contains_key(CATALOG_PAGE)
                && is_catalog_page(final(self).dirty()[CATALOG_PAGE], e_catalog(final(self).working()))
                && forall|k: u64| k != CATALOG_PAGE ==> #[trigger] final(self).dirty().contains_key(k) == old(self).dirty().contains_key(k)
                    && (old(self).dirty().contains_key(k) ==> final(self).dirty()[k] == old(self).dirty()[k]),
            r is Ok ==> final(self).tx_pages() == old(self).tx_pages().insert(CATALOG_PAGE, final(self).tx_pages()[CATALOG_PAGE])
                && !leaf_page(final(self).tx_pages(), CATALOG_PAGE),
    {
        let page = self.working_catalog.to_page()?;
        let ghost d0 = self.dirty();
        self.dirty_pages.stage(CATALOG_PAGE, page);
        assert(self.dirty().dom() =~= d0.dom().insert(CATALOG_PAGE));
        proof {
            assert(self.tx_pages() =~= old(self).tx_pages().insert(CATALOG_PAGE, self.dirty()[CATALOG_PAGE]));
            lemma_catalog_page_not_leaf(self.dirty()[CATALOG_PAGE], e_catalog(self.working()));
        }
        Ok(())
    }
}

/// Page `id` of pages `pm` is a valid heap page carrying that id.
pub open spec fn heap_image(pm: Map<u64, Seq<u8>>, id: u64) -> bool {
    &&& pm.contains_key(id)
    &&& page_valid(pm[id])
    &&& spec_header(pm[id]).page_id == PageId(id)
    &&& spec_header(pm[id]).page_type == PageType::Heap
}

/// The rows of the heap pages `pages` (the first `k` of them) as pages `pm`
/// hold them: page by page, each in slot order; `None` when one of them is
/// not a valid heap page with its id.
pub open spec fn page_map_rows(pm: Map<u64, Seq<u8>>, pages: Seq<u64>, k: int) -> Option<Seq<(RowId, Seq<u8>)>>
    decreases k,
{
    if k <= 0 {
        Some(Seq::empty())
    } else {
        match page_map_rows(pm, pages, k - 1) {
            Some(rows) => if heap_image(pm, pages[k - 1]) {
                Some(rows + live_rows(pm[pages[k - 1]], PageId(pages[k - 1]), raw_slot_count(pm[pages[k - 1]])))
            } else {
                None
            },
            None => None,
        }
    }
}

/// A scan that succeeds over `k` pages succeeds over each shorter prefix.
proof fn lemma_page_map_rows_prefix(pm: Map<u64, Seq<u8>>, pages: Seq<u64>, j: int, k: int)
    requires
        0 <= j <= k,
        page_map_rows(pm, pages, k) is Some,
    ensures
        page_map_rows(pm, pages, j) is Some,
    decreases k - j,
{
    if j < k {
        lemma_page_map_rows_prefix(pm, pages, j, k - 1);
    }
}

/// Page image `p` is a valid page of row `row`'s page with a slot for it.
pub open spec fn row_page_ok(p: Seq<u8>, row: RowId) -> bool {
    &&& page_valid(p)
    &&& spec_header(p).page_id == row.page_id
    &&& row.slot_id.0 < raw_slot_count(p)
}

/// A scan that succeeds over `k` pages finds each of them a valid heap page.
proof fn lemma_page_map_rows_pages(pm: Map<u64, Seq<u8>>, pages: Seq<u64>, k: int)
    requires
        0 <= k <= pages.len(),
        page_map_rows(pm, pages, k) is Some,
    ensures
        forall|j: int| 0 <= j < k ==> #[trigger] heap_image(pm, pages[j]),
    decreases k,
{
    if k > 0 {
        lemma_page_map_rows_pages(pm, pages, k - 1);
    }
}

/// A relation list holding id `id` has a first position with it.
pub(crate) proof fn lemma_first_with_id_exists(rels: Seq<RelationView>, id: u64) -> (i: int)
    requires
        has_id(rels, id),
    ensures
        first_with_id(rels, id, i),
    decreases rels.len(),
{
    if rels[0].id == id {
        0
    } else {
        let w = choose|w: int| 0 <= w < rels.len() && #[trigger] rels[w].id == id;
        let tail = rels.drop_first();
        assert(tail[w - 1].id == id);
        let j = lemma_first_with_id_exists(tail, id);
        assert forall|m: int| 0 <= m < j + 1 implies #[trigger] rels[m].id != id by {
            if m > 0 { assert(rels[m] == tail[m - 1]); }
        }
        j + 1
    }
}

/// At most one position is the first with a given id.
pub(crate) proof fn lemma_first_with_id_unique(rels: Seq<RelationView>, id: u64, i: int, j: int)
    requires
        first_with_id(rels, id, i),
        first_with_id(rels, id, j),
    ensures
        i == j,
{
    if i < j { assert(rels[i].id == id); }
    if j < i { assert(rels[j].id == id); }
}

/// A record no longer than `MAX_PAGE_RECORD` fits a page without slots.
proof fn lemma_empty_page_fits(p: Seq<u8>, len: int)
    requires
        raw_slot_count(p) == 0,
        raw_free_start(p) == crate::page::HEADER_SIZE,
        raw_free_end(p) == PAGE_SIZE,
        first_dead(p, 0) is None,
        0 <= len <= MAX_PAGE_RECORD,
    ensures
        insert_fits(p, len),
{
}

/// Inserting row bytes of length `len` into heap relation `i` of catalog
/// `o` cannot fail over the transaction's pages `pm`: every heap page of the
/// relation is a valid heap page, the bytes fit an empty page, a page id is
/// left to allocate, and the catalog with one more heap page still fits its
/// page.
pub open spec fn row_insert_ok(pm: Map<u64, Seq<u8>>, o: CatalogView, i: int, len: int) -> bool {
    let pages = storage_heap_pages(o.relations[i].storage);
    &&& o.relations[i].kind == RelationKind::Table
    &&& o.relations[i].storage is Heap
    &&& page_map_rows(pm, pages, pages.len() as int) is Some
    &&& len <= MAX_PAGE_RECORD
    &&& o.next_page_id < u64::MAX
    &&& catalog_fits_page(with_heap_page(CatalogView { next_page_id: (o.next_page_id + 1) as u64, ..o }, i, o.next_page_id))
}

impl<'a, F: VfsFile> Transaction<'a, F> {
    fn load_page(&self, page_id: PageId) -> (r: DbResult<Page>)
        requires
            self.wf(),
        ensures
            r matches Ok(p) ==> p.wf() && spec_header(p@).page_id == page_id,
            self.dirty().contains_key(page_id.0) ==> (r matches Ok(p) && p@ == self.dirty()[page_id.0]),
            self.file_modeled() ==> (r is Ok <==> self.tx_pages().contains_key(page_id.0))
                && (r matches Ok(p) ==> p@ == self.tx_pages()[page_id.0]),
    {
        assert(PageId(page_id.0) == page_id);
        match self.dirty_pages.get_copy(page_id.0) {
            Some(page) => Ok(page),
            None => self.manager.store.page_file().read_page(page_id),
        }
    }

    /// Register extension metadata inside this transaction.
    #[verifier::spinoff_prover]
    #[verifier::rlimit(100)]
    pub fn register_extension(&mut self, name: &str, abi_version: u32, kind: &str) -> (r: DbResult<bool>)
        requires
            old(self).wf(),
        ensures
            final(self).wf(),
            final(self).manager == old(self).manager,
            final(self).spec_state() == old(self).spec_state(),
            final(self).spec_tx_id() == old(self).spec_tx_id(),
            old(self).spec_state() != TransactionState::Active ==> r is Err && r->Err_0 is User
                && final(self).working() == old(self).working() && final(self).dirty() == old(self).dirty(),
            old(self).spec_state() == TransactionState::Active ==> {
                let o = old(self).working();
                let n = final(self).working();
                &&& !valid_name(name@) || !valid_name(kind@) ==> r is Err && r->Err_0 is User && n == o
                    && final(self).dirty() == old(self).dirty()
                &&& r == Ok::<bool, DbError>(false) ==> n == o && final(self).dirty() == old(self).dirty()
                &&& r == Ok::<bool, DbError>(true) ==> valid_name(name@) && valid_name(kind@) && !has_extension(o.extensions, name@)
                &&& valid_name(name@) && valid_name(kind@) && !has_extension(o.extensions, name@) ==> {
                    &&& n == with_extension(o, name@, abi_version, kind@)
                    &&& r is Ok <==> catalog_fits_page(n)
                    &&& r is Ok ==> r == Ok::<bool, DbError>(true) && final(self).catalog_page_current()
                }
                &&& valid_name(name@) && valid_name(kind@) && has_extension(o.extensions, name@) ==> {
                    &&& n == o && final(self).dirty() == old(self).dirty()
                    &&& r == Ok::<bool, DbError>(false) <==> extension_registered_as(o.extensions, name@, abi_version, kind@)
                    &&& r is Err ==> r->Err_0 is User
                }
            },
            r == Ok::<bool, DbError>(true) ==> final(self).dirty().dom() == old(self).dirty().dom().insert(CATALOG_PAGE),
    {
        self.ensure_active()?;
        let inserted = self.working_catalog.register_extension_metadata(name, abi_version, kind)?;
        if inserted {
            self.mark_catalog_dirty()?;
        }
        Ok(inserted)
    }

    /// Create a heap table inside this transaction: its first heap page and
    /// the catalog page are staged.
    #[verifier::spinoff_prover]
    #[verifier::rlimit(100)]
    pub fn create_table(&mut self, name: &str, columns: Vec<ColumnDef>) -> (r: DbResult<RelationId>)
        requires
            old(self).wf(),
        ensures
            final(self).wf(),
            final(self).manager == old(self).manager,
            final(self).spec_state() == old(self).spec_state(),
            final(self).spec_tx_id() == old(self).spec_tx_id(),
            old(self).spec_state() != TransactionState::Active ==> r is Err && r->Err_0 is User
                && final(self).working() == old(self).working() && final(self).dirty() == old(self).dirty(),
            old(self).spec_state() == TransactionState::Active ==> {
                let o = old(self).working();
                &&& !valid_name(name@) || !columns_valid(columns_view(columns@)) || has_name(o.relations, name@)
                    ==> r is Err && r->Err_0 is User && final(self).working() == o && final(self).dirty() == old(self).dirty()
                &&& r matches Ok(id) ==> {
                    &&& id.0 == o.next_relation_id
                    &&& final(self).working() == with_new_table(o, name@, columns_view(columns@))
                    &&& o.next_page_id != CATALOG_PAGE ==> final(self).dirty().contains_key(o.next_page_id)
                        && is_empty_heap_page(final(self).dirty()[o.next_page_id], o.next_page_id)
                    &&& final(self).catalog_page_current()
                }
                &&& valid_name(name@) && columns_valid(columns_view(columns@)) && !has_name(o.relations, name@)
                    && o.next_relation_id < u64::MAX && o.next_page_id < u64::MAX
                    && catalog_fits_page(with_new_table(o, name@, columns_view(columns@))) ==> r is Ok
            },
            r is Ok ==> final(self).dirty().dom() == old(self).dirty().dom().insert(old(self).working().next_page_id).insert(CATALOG_PAGE),
    {
        self.ensure_active()?;
        let (relation_id, first_page_id) = self.working_catalog.create_table_metadata(name, columns)?;
        let page = Page::new(first_page_id, PageType::Heap);
        assert(is_empty_heap_page(page@, first_page_id.0)) by {
            reveal(is_empty_heap_page);
        }
        let ghost d0 = self.dirty();
        let ghost heap = page@;
        self.dirty_pages.stage(first_page_id.0, page);
        let ghost d1 = self.dirty();
        assert(d1.dom() =~= d0.dom().insert(first_page_id.0));
        self.mark_catalog_dirty()?;
        Ok(relation_id)
    }

    fn heap_position(&self, relation_id: RelationId) -> (r: DbResult<usize>)
        ensures
            !has_id(self.working().relations, relation_id.0) ==> r is Err && r->Err_0 is User,
            r matches Ok(i) ==> first_with_id(self.working().relations, relation_id.0, i as int)
                && self.working().relations[i as int].kind == RelationKind::Table,
            r is Err ==> r->Err_0 is User,
            forall|i: int| #[trigger] first_with_id(self.working().relations, relation_id.0, i)
                && self.working().relations[i].kind == RelationKind::Table ==> (r matches Ok(j) && j == i),
    {
        let relation = match self.working_catalog.relation_by_id(relation_id) {
            Some(relation) => relation,
            None => return Err(user_error("unknown relation id")),
        };
        if !relation.is_heap_table() {
            return Err(user_error("relation is not a heap table"));
        }
        let mut i: usize = 0;
        let relations = self.working_catalog.relations();
        while i < relations.len()
            invariant
                i <= relations@.len(),
                crate::catalog::relations_view(relations@) == self.working().relations,
                has_id(self.working().relations, relation_id.0),
                exists|j: int| #[trigger] first_with_id(self.working().relations, relation_id.0, j)
                    && relation@ == self.working().relations[j],
                relation.kind == RelationKind::Table,
                forall|j: int| 0 <= j < i ==> #[trigger] self.working().relations[j].id != relation_id.0,
            decreases relations@.len() - i,
        {
            if relations[i].id == relation_id {
                proof {
                    let j = choose|j: int| #[trigger] first_with_id(self.working().relations, relation_id.0, j)
                        && relation@ == self.working().relations[j];
                    if j < i { assert(self.working().relations[j].id == relation_id.0); }
                    if j > i { assert(self.working().relations[i as int].id == relation_id.0); }
                }
                return Ok(i);
            }
            i = i + 1;
        }
        proof {
            let j = choose|j: int| #[trigger] first_with_id(self.working().relations, relation_id.0, j)
                && relation@ == self.working().relations[j];
            assert(self.working().relations[j].id == relation_id.0);
        }
        Err(DbError::InternalInvariant("relation disappeared during lookup"))
    }

    /// Put row bytes into the first of the heap pages `candidates` that has
    /// room for them; `None` when none has.
    #[verifier::spinoff_prover]
    fn insert_into_existing(&mut self, candidates: &Vec<PageId>, bytes: &[u8]) -> (r: DbResult<Option<RowId>>)
        requires
            old(self).wf(),
        ensures
            final(self).wf(),
            final(self).manager == old(self).manager,
            final(self).spec_state() == old(self).spec_state(),
            final(self).spec_tx_id() == old(self).spec_tx_id(),
            final(self).working() == old(self).working(),
            !(r matches Ok(Some(_))) ==> final(self).dirty() == old(self).dirty(),
            r matches Ok(Some(row)) ==> {
                &&& page_ids_view(candidates@).contains(row.page_id.0)
                &&& bytes@.len() <= MAX_PAGE_RECORD
                &&& final(self).dirty().contains_key(row.page_id.0)
                &&& slot_live(final(self).dirty()[row.page_id.0], row.slot_id.0 as int)
                &&& slot_record(final(self).dirty()[row.page_id.0], row.slot_id.0 as int) == bytes@
            },
            old(self).file_modeled() && (forall|k: int| 0 <= k < candidates@.len()
                ==> #[trigger] heap_image(old(self).tx_pages(), page_ids_view(candidates@)[k])) ==> r is Ok,
            r matches Ok(Some(row)) ==> final(self).dirty() == old(self).dirty().insert(row.page_id.0, final(self).dirty()[row.page_id.0]),
            r matches Ok(Some(row)) ==> (old(self).file_modeled() ==> old(self).tx_pages().contains_key(row.page_id.0)),
            r matches Ok(Some(row)) ==> final(self).tx_pages() == old(self).tx_pages().insert(row.page_id.0, final(self).tx_pages()[row.page_id.0]),
            r matches Ok(Some(row)) ==> (old(self).file_modeled() && (forall|k: int| 0 <= k < candidates@.len()
                ==> #[trigger] heap_image(old(self).tx_pages(), page_ids_view(candidates@)[k]))
                ==> row_page_ok(final(self).dirty()[row.page_id.0], row)),
    {
        let ghost ok = self.file_modeled() && (forall|k: int| 0 <= k < candidates@.len()
            ==> #[trigger] heap_image(self.tx_pages(), page_ids_view(candidates@)[k]));
        let mut j: usize = 0;
        while j < candidates.len()
            invariant
                self.wf(),
                j <= candidates@.len(),
                self.working() == old(self).working(),
                self.dirty() == old(self).dirty(),
                self.manager == old(self).manager,
                self.spec_state() == old(self).spec_state(),
                self.spec_tx_id() == old(self).spec_tx_id(),
                self.tx_pages() == old(self).tx_pages(),
                self.file_modeled() == old(self).file_modeled(),
                ok == (old(self).file_modeled() && (forall|k: int| 0 <= k < candidates@.len()
                    ==> #[trigger] heap_image(old(self).tx_pages(), page_ids_view(candidates@)[k]))),
            decreases candidates@.len() - j,
        {
            let page_id = candidates[j];
            proof {
                assert(page_ids_view(candidates@)[j as int] == page_id.0);
                if ok {
                    assert(heap_image(self.tx_pages(), page_ids_view(candidates@)[j as int]));
                }
            }
            let mut page = self.load_page(page_id)?;
            let ghost before = page@;
            proof {
                if ok {
                    assert(page_valid(before));
                }
            }
            match page.insert_record(bytes) {
                Ok(slot_id) => {
                    proof {
                        crate::catalog::lemma_insert_bound(before, page@, slot_id.0 as int, bytes@);
                    }
                    let ghost staged = page@;
                    assert(slot_live(staged, slot_id.0 as int) && slot_record(staged, slot_id.0 as int) == bytes@);
                    proof {
                        if ok {
                            assert(row_page_ok(staged, RowId { page_id, slot_id }));
                        }
                    }
                    let ghost pm0 = self.tx_pages();
                    self.dirty_pages.stage(page_id.0, page);
                    assert(self.dirty()[page_id.0] == staged);
                    assert(self.tx_pages() =~= pm0.insert(page_id.0, staged));
                    return Ok(Some(RowId { page_id, slot_id }));
                },
                Err(DbError::User(_)) => {},
                Err(error) => return Err(error),
            }
            j = j + 1;
        }
        Ok(None)
    }

    /// Put row bytes into a fresh heap page and append it to heap relation
    /// `relation_id`, at position `i` of the working catalog.
    #[verifier::spinoff_prover]
    fn stage_new_heap_page(&mut self, relation_id: RelationId, i: usize, bytes: &[u8]) -> (r: DbResult<RowId>)
        requires
            old(self).wf(),
            first_with_id(old(self).working().relations, relation_id.0, i as int),
            old(self).working().relations[i as int].kind == RelationKind::Table,
        ensures
            final(self).wf(),
            final(self).manager == old(self).manager,
            final(self).spec_state() == old(self).spec_state(),
            final(self).spec_tx_id() == old(self).spec_tx_id(),
            r matches Ok(row) ==> {
                let o = old(self).working();
                &&& bytes@.len() <= MAX_PAGE_RECORD
                &&& row.page_id.0 == o.next_page_id && row.slot_id.0 == 0
                &&& final(self).working() == with_heap_page(CatalogView { next_page_id: (o.next_page_id + 1) as u64, ..o },
                    i as int, o.next_page_id)
                &&& final(self).dirty().contains_key(row.page_id.0)
                &&& slot_live(final(self).dirty()[row.page_id.0], row.slot_id.0 as int)
                &&& slot_record(final(self).dirty()[row.page_id.0], row.slot_id.0 as int) == bytes@
            },
            bytes@.len() <= MAX_PAGE_RECORD && old(self).working().next_page_id < u64::MAX
                && old(self).working().relations[i as int].storage is Heap ==> r is Ok,
            r matches Ok(row) ==> final(self).dirty() == old(self).dirty().insert(row.page_id.0, final(self).dirty()[row.page_id.0])
                && row_page_ok(final(self).dirty()[row.page_id.0], row),
            r matches Ok(row) ==> final(self).tx_pages() == old(self).tx_pages().insert(row.page_id.0, final(self).tx_pages()[row.page_id.0]),
            r is Ok ==> old(self).working().next_page_id < u64::MAX,
    {
        let ghost o = self.working();
        let page_id = self.working_catalog.allocate_page_id()?;
        let mut page = Page::new(page_id, PageType::Heap);
        let ghost before = page@;
        proof {
            assert(first_dead(before, 0) is None);
            if bytes@.len() <= MAX_PAGE_RECORD {
                lemma_empty_page_fits(before, bytes@.len() as int);
            }
        }
        let slot_id = page.insert_record(bytes)?;
        proof {
            crate::catalog::lemma_insert_bound(before, page@, slot_id.0 as int, bytes@);
        }
        let ghost staged = page@;
        assert(slot_live(staged, slot_id.0 as int) && slot_record(staged, slot_id.0 as int) == bytes@);
        assert(row_page_ok(staged, RowId { page_id, slot_id }));
        let ghost w1 = self.working();
        proof {
            assert(first_with_id(w1.relations, relation_id.0, i as int));
        }
        self.working_catalog.append_heap_page(relation_id, page_id)?;
        proof {
            let j = choose|j: int| #[trigger] first_with_id(w1.relations, relation_id.0, j) && {
                let rel = w1.relations[j];
                if rel.kind != RelationKind::Table {
                    false
                } else {
                    match rel.storage {
                        StorageView::Heap(pages) => self.working() == CatalogView {
                            relations: w1.relations.update(j, RelationView {
                                storage: StorageView::Heap(pages.push(page_id.0)),
                                ..rel
                            }),
                            ..w1
                        },
                        StorageView::BPlusTree(_) => false,
                    }
                }
            };
            lemma_first_with_id_unique(w1.relations, relation_id.0, i as int, j);
        }
        self.dirty_pages.stage(page_id.0, page);
        assert(self.dirty()[page_id.0] == staged);
        Ok(RowId { page_id, slot_id })
    }

    /// Insert raw row bytes into a heap table inside this transaction.
    #[verifier::spinoff_prover]
    #[verifier::rlimit(100)]
    pub fn insert_row(&mut self, relation_id: RelationId, bytes: &[u8]) -> (r: DbResult<RowId>)
        requires
            old(self).wf(),
        ensures
            final(self).wf(),
            final(self).manager == old(self).manager,
            final(self).spec_state() == old(self).spec_state(),
            final(self).spec_tx_id() == old(self).spec_tx_id(),
            old(self).spec_state() != TransactionState::Active ==> r is Err && r->Err_0 is User
                && final(self).working() == old(self).working() && final(self).dirty() == old(self).dirty(),
            old(self).spec_state() == TransactionState::Active ==> {
                let o = old(self).working();
                &&& !has_id(o.relations, relation_id.0) ==> r is Err && r->Err_0 is User
                    && final(self).working() == o && final(self).dirty() == old(self).dirty()
                &&& r matches Ok(row) ==> final(self).dirty().contains_key(row.page_id.0)
                    && exists|i: int| #[trigger] first_with_id(o.relations, relation_id.0, i) && {
                        ||| final(self).working() == o && storage_heap_pages(o.relations[i].storage).contains(row.page_id.0)
                        ||| row.page_id.0 == o.next_page_id && row.slot_id.0 == 0
                            && final(self).working() == with_heap_page(CatalogView { next_page_id: (o.next_page_id + 1) as u64, ..o }, i, o.next_page_id)
                            && final(self).catalog_page_current()
                    }
            },
            r is Ok ==> bytes@.len() <= MAX_PAGE_RECORD,
            r matches Ok(row) ==> (row.page_id.0 != CATALOG_PAGE ==> final(self).dirty().contains_key(row.page_id.0)
                && slot_live(final(self).dirty()[row.page_id.0], row.slot_id.0 as int)
                && slot_record(final(self).dirty()[row.page_id.0], row.slot_id.0 as int) == bytes@),
            old(self).spec_state() == TransactionState::Active && old(self).file_modeled() ==> forall|i: int|
                #[trigger] first_with_id(old(self).working().relations, relation_id.0, i)
                && row_insert_ok(old(self).tx_pages(), old(self).working(), i, bytes@.len() as int) ==> r is Ok,
            r matches Ok(row) ==> final(self).dirty().dom().subset_of(old(self).dirty().dom().insert(row.page_id.0).insert(CATALOG_PAGE)),
            r matches Ok(row) ==> (row.page_id.0 != CATALOG_PAGE && !old(self).dirty().contains_key(CATALOG_PAGE)
                && final(self).dirty().contains_key(CATALOG_PAGE) ==> final(self).catalog_page_current()),
            r matches Ok(row) ==> (old(self).spec_state() == TransactionState::Active && old(self).file_modeled()
                && (forall|i: int| #[trigger] first_with_id(old(self).working().relations, relation_id.0, i)
                    ==> row_insert_ok(old(self).tx_pages(), old(self).working(), i, bytes@.len() as int))
                && row.page_id.0 != CATALOG_PAGE ==> row_page_ok(final(self).dirty()[row.page_id.0], row)),
            r matches Ok(row) ==> (old(self).filing_ready() && row.page_id.0 != CATALOG_PAGE ==> final(self).filing_ready()),
    {
        self.ensure_active()?;
        let i = self.heap_position(relation_id)?;
        let ghost o = self.working();
        let mut candidates: Vec<PageId> = Vec::new();
        {
            let page_ids = self.working_catalog.relations()[i].heap_pages();
            let mut k: usize = 0;
            while k < page_ids.len()
                invariant
                    k <= page_ids@.len(),
                    candidates@ == page_ids@.subrange(0, k as int),
                decreases page_ids@.len() - k,
            {
                candidates.push(page_ids[k]);
                k = k + 1;
                assert(candidates@ =~= page_ids@.subrange(0, k as int));
            }
            assert(candidates@ =~= page_ids@);
        }
        let ghost ok = self.file_modeled() && row_insert_ok(self.tx_pages(), o, i as int, bytes@.len() as int);
        proof {
            if ok {
                let pages = storage_heap_pages(o.relations[i as int].storage);
                lemma_page_map_rows_pages(self.tx_pages(), pages, pages.len() as int);
            }
        }
        if let Some(row) = self.insert_into_existing(&candidates, bytes)? {
            proof {
                assert(self.dirty().dom() =~= old(self).dirty().dom().insert(row.page_id.0));
                if row.page_id.0 != CATALOG_PAGE && !old(self).dirty().contains_key(CATALOG_PAGE) {
                    assert(!self.dirty().contains_key(CATALOG_PAGE));
                }
                if old(self).file_modeled() && row.page_id.0 != CATALOG_PAGE {
                    lemma_one_page_written(old(self).tx_pages(), self.tx_pages(), row.page_id.0, old(self).working().next_page_id);
                }
            }
            return Ok(row);
        }
        let row = self.stage_new_heap_page(relation_id, i, bytes)?;
        let ghost staged = self.dirty()[row.page_id.0];
        let ghost d1 = self.dirty();
        assert(d1.dom() =~= old(self).dirty().dom().insert(row.page_id.0));
        let ghost pm1 = self.tx_pages();
        self.mark_catalog_dirty()?;
        proof {
            if row.page_id.0 != CATALOG_PAGE {
                assert(self.dirty().contains_key(row.page_id.0));
                assert(self.dirty()[row.page_id.0] == staged);
            }
            lemma_two_pages_below(old(self).tx_pages(), pm1, self.tx_pages(), o.next_page_id);
        }
        Ok(row)
    }

    /// Append the live rows of heap page `page_id` as this transaction sees
    /// it, in slot order.
    #[verifier::spinoff_prover]
    #[verifier::rlimit(40)]
    fn scan_tx_page(&self, page_id: PageId, rows: &mut Vec<HeapRow>) -> (r: DbResult<()>)
        requires
            self.wf(),
        ensures
            forall|k: int| 0 <= k < old(rows)@.len() ==> #[trigger] final(rows)@[k] == old(rows)@[k],
            final(rows)@.len() >= old(rows)@.len(),
            forall|k: int| old(rows)@.len() <= k < final(rows)@.len() ==> #[trigger] final(rows)@[k].row_id.page_id == page_id,
            self.file_modeled() && heap_image(self.tx_pages(), page_id.0) ==> {
                let p = self.tx_pages()[page_id.0];
                r is Ok && heap_rows_view(final(rows)@) == heap_rows_view(old(rows)@) + live_rows(p, page_id, raw_slot_count(p))
            },
    {
        let page = self.load_page(page_id)?;
        let header = page.header()?;
        if header.page_type != PageType::Heap {
            return Err(corruption("relation page is not a heap page"));
        }
        let ghost base = heap_rows_view(rows@);
        let ghost start = rows@;
        let ghost valid = page_valid(page@);
        let mut slot_index: u16 = 0;
        proof {
            assert(base + live_rows(page@, page_id, 0) =~= base);
        }
        while slot_index < header.slot_count
            invariant
                page.wf(),
                valid == page_valid(page@),
                self.file_modeled() && heap_image(self.tx_pages(), page_id.0) ==> valid && page@ == self.tx_pages()[page_id.0],
                start == old(rows)@,
                header.slot_count == raw_slot_count(page@),
                slot_index <= header.slot_count,
                valid ==> heap_rows_view(rows@) == base + live_rows(page@, page_id, slot_index as int),
                rows@.len() >= start.len(),
                forall|k: int| 0 <= k < start.len() ==> #[trigger] rows@[k] == start[k],
                forall|k: int| start.len() <= k < rows@.len() ==> #[trigger] rows@[k].row_id.page_id == page_id,
            decreases header.slot_count - slot_index,
        {
            let slot_id = SlotId(slot_index);
            proof {
                if valid {
                    assert(crate::page::slot_ok(page@, slot_index as int));
                }
            }
            let ghost before = heap_rows_view(rows@);
            if let Some(record) = page.read_record(slot_id)? {
                let mut copy: Vec<u8> = Vec::new();
                crate::codec::push_bytes(&mut copy, record);
                let row = HeapRow { row_id: RowId { page_id, slot_id }, bytes: copy };
                rows.push(row);
                proof {
                    assert(heap_rows_view(rows@) =~= before.push((row.row_id, row.bytes@)));
                }
            }
            slot_index = slot_index + 1;
            proof {
                if valid {
                    assert(heap_rows_view(rows@) =~= base + live_rows(page@, page_id, slot_index as int));
                }
            }
        }
        Ok(())
    }

    /// Scan heap rows visible inside this transaction: page by page in the
    /// relation's heap-page order, each in slot order, staged pages in place
    /// of the committed ones.
    #[verifier::spinoff_prover]
    pub fn full_scan(&self, relation_id: RelationId) -> (r: DbResult<Vec<HeapRow>>)
        requires
            self.wf(),
        ensures
            self.spec_state() != TransactionState::Active ==> r is Err && r->Err_0 is User,
            self.spec_state() == TransactionState::Active && !has_id(self.working().relations, relation_id.0)
                ==> r is Err && r->Err_0 is User,
            r matches Ok(rows) ==> exists|i: int| #[trigger] first_with_id(self.working().relations, relation_id.0, i)
                && forall|k: int| 0 <= k < rows@.len() ==> storage_heap_pages(self.working().relations[i].storage).contains(
                    #[trigger] rows@[k].row_id.page_id.0),
            self.spec_state() == TransactionState::Active && self.file_modeled() ==> forall|i: int|
                #[trigger] first_with_id(self.working().relations, relation_id.0, i) && self.working().relations[i].kind == RelationKind::Table
                ==> {
                    let pages = storage_heap_pages(self.working().relations[i].storage);
                    page_map_rows(self.tx_pages(), pages, pages.len() as int) matches Some(all)
                        ==> r matches Ok(x) && heap_rows_view(x@) == all
                },
    {
        self.ensure_active()?;
        let i = self.heap_position(relation_id)?;
        let page_ids = self.working_catalog.relations()[i].heap_pages();
        let ghost pages = storage_heap_pages(self.working().relations[i as int].storage);
        let ghost pm = self.tx_pages();
        let ghost whole = page_map_rows(pm, pages, pages.len() as int) is Some;
        let mut rows: Vec<HeapRow> = Vec::new();
        let mut j: usize = 0;
        while j < page_ids.len()
            invariant
                self.wf(),
                self.spec_state() == TransactionState::Active,
                j <= page_ids@.len(),
                page_ids_view(page_ids@) == pages,
                first_with_id(self.working().relations, relation_id.0, i as int),
                pages == storage_heap_pages(self.working().relations[i as int].storage),
                forall|k: int| 0 <= k < rows@.len() ==> pages.contains(#[trigger] rows@[k].row_id.page_id.0),
                pm == self.tx_pages(),
                whole == (page_map_rows(pm, pages, pages.len() as int) is Some),
                self.file_modeled() && whole ==> page_map_rows(pm, pages, j as int) == Some(heap_rows_view(rows@)),
            decreases page_ids@.len() - j,
        {
            let page_id = page_ids[j];
            assert(pages[j as int] == page_id.0);
            let ghost before = heap_rows_view(rows@);
            proof {
                if self.file_modeled() && whole {
                    lemma_page_map_rows_prefix(pm, pages, j + 1, pages.len() as int);
                    assert(PageId(pages[j as int]) == page_id);
                }
            }
            self.scan_tx_page(page_id, &mut rows)?;
            proof {
                assert forall|k: int| 0 <= k < rows@.len() implies pages.contains(#[trigger] rows@[k].row_id.page_id.0) by {
                    if k >= before.len() {
                        assert(rows@[k].row_id.page_id == page_id);
                    } else {
                        assert(heap_rows_view(rows@)[k] == before[k]);
                        assert(rows@[k].row_id == heap_rows_view(rows@)[k].0);
                    }
                }
            }
            j = j + 1;
        }
        Ok(rows)
    }

    /// Commit staged pages: WAL full-page images and a commit marker, WAL sync,
    /// data-file writes, data sync; then install the working catalog. The
    /// writer slot is released whether or not this succeeds.
    pub fn commit(self) -> (r: DbResult<()>)
        requires
            self.wf(),
        ensures
            self.spec_state() != TransactionState::Active ==> r is Err && r->Err_0 is User
                && final(self.manager)@ == old(self.manager)@,
            self.spec_state() == TransactionState::Active ==> {
                &&& !final(self.manager)@.active_writer
                &&& final(self.manager)@.next_tx_id == old(self.manager)@.next_tx_id
                &&& r is Ok ==> final(self.manager)@.catalog == self.working()
                &&& r is Err ==> final(self.manager)@.catalog == old(self.manager)@.catalog
            },
            self.spec_state() == TransactionState::Active && old(self.manager).wal_in_sync()
                && old(self.manager).data_file().modeled() ==> {
                let logged = old(self.manager).wal_file().contents()
                    + commit_log(old(self.manager).wal_file().contents().len() as int, self.spec_tx_id(), self.staged());
                &&& r is Ok ==> final(self.manager).wal_file().contents() == logged
                    && final(self.manager).data_file().contents()
                        == images_written(old(self.manager).data_file().contents(), self.staged())
                &&& final(self.manager).data_file().contents() != old(self.manager).data_file().contents()
                    ==> final(self.manager).wal_file().contents() == logged
                &&& r is Ok ==> forall|i: int| 0 <= i < self.staged_ids().len() ==> {
                    let off = spec_page_offset(PageId(#[trigger] self.staged_ids()[i]));
                    &&& off + PAGE_SIZE <= final(self.manager).data_file().contents().len()
                    &&& final(self.manager).data_file().contents().subrange(off, off + PAGE_SIZE) == self.staged()[i]
                }
                &&& pages_writable(self.staged_ids(), self.staged()) && logged.len() <= usize::MAX ==> r is Ok
            },
    {
        self.ensure_active()?;
        let Transaction { manager, tx_id, working_catalog, dirty_pages, state } = self;
        let steps = manager.write_committed_pages(tx_id, &dirty_pages);
        if steps.is_err() {
            manager.finish_writer();
            return steps;
        }
        manager.store.replace_catalog(working_catalog);
        manager.finish_writer();
        Ok(())
    }

    /// Roll back: log an abort marker and discard every staged page. The
    /// committed catalog is untouched and the writer slot is released.
    pub fn rollback(self) -> (r: DbResult<()>)
        requires
            self.wf(),
        ensures
            self.spec_state() != TransactionState::Active ==> r is Err && r->Err_0 is User
                && final(self.manager)@ == old(self.manager)@,
            self.spec_state() == TransactionState::Active ==> {
                &&& !final(self.manager)@.active_writer
                &&& final(self.manager)@.next_tx_id == old(self.manager)@.next_tx_id
                &&& final(self.manager)@.catalog == old(self.manager)@.catalog
            },
            final(self.manager).data_file() == old(self.manager).data_file(),
            self.spec_state() == TransactionState::Active && old(self.manager).wal_in_sync() ==> {
                let logged = old(self.manager).wal_file().contents() + spec_encode(WalRecordView {
                    lsn: old(self.manager).wal_file().contents().len() as u64,
                    kind: WalKindView::AbortTx(self.spec_tx_id()),
                });
                &&& r is Ok ==> final(self.manager).wal_file().contents() == logged
                &&& logged.len() <= usize::MAX ==> r is Ok
            },
    {
        self.ensure_active()?;
        proof {
            lemma_encode_layout(WalRecordView { lsn: self.manager.wal_file().contents().len() as u64, kind: WalKindView::AbortTx(self.tx_id.0) });
        }
        let Transaction { manager, tx_id, working_catalog, dirty_pages, state } = self;
        let appended = manager.wal.append(WalRecordKind::AbortTx { tx_id });
        let result = match appended {
            Ok(_) => manager.wal.sync_data(),
            Err(error) => Err(error),
        };
        let mut discarded = dirty_pages;
        discarded.clear();
        manager.finish_writer();
        result
    }

    /// Give up the transaction without logging anything and release the
    /// writer slot. A transaction has no destructor, so one that is simply
    /// dropped keeps the slot taken; this is the call that gives it back.
    /// Nothing staged reaches either file.
    pub fn abandon(self)
        ensures
            !final(self.manager)@.active_writer,
            final(self.manager)@.catalog == old(self.manager)@.catalog,
            final(self.manager)@.next_tx_id == old(self.manager)@.next_tx_id,
            final(self.manager).data_file() == old(self.manager).data_file(),
            final(self.manager).wal_file() == old(self.manager).wal_file(),
            final(self.manager).wal_in_sync() == old(self.manager).wal_in_sync(),
    {
        self.manager.finish_writer();
    }
}

/// Page store over a transaction: reads see staged pages first, writes are
/// staged, and new pages come from the working catalog.
struct TransactionIndexPageStore<'b, F: VfsFile> {
    dirty: DirtyPages,
    next_page_id: u64,
    committed: &'b CatalogStore<F>,
}

impl<'b, F: VfsFile> BPlusTreePageStore for TransactionIndexPageStore<'b, F> {
    closed spec fn store_ok(&self) -> bool {
        self.dirty.wf()
    }

    closed spec fn modeled(&self) -> bool {
        self.committed.pages().file().modeled()
    }

    closed spec fn pages(&self) -> Map<u64, Seq<u8>> {
        file_pages(self.committed.pages().file().contents()).union_prefer_right(self.dirty@)
    }

    closed spec fn allocated(&self, id: u64) -> bool {
        id < self.next_page_id
    }

    closed spec fn backing(&self) -> Seq<u8> {
        self.committed.pages().file().contents()
    }

    open spec fn writable(&self) -> bool {
        true
    }

    closed spec fn alloc_budget(&self) -> nat {
        (u64::MAX - self.next_page_id) as nat
    }

    closed spec fn allocates_fresh(&self) -> bool {
        &&& self.modeled()
        &&& forall|id: u64| #[trigger] self.pages().contains_key(id) ==> id < self.next_page_id
    }

    fn load_page(&mut self, page_id: PageId) -> (r: DbResult<Page>) {
        assert(PageId(page_id.0) == page_id);
        match self.dirty.get_copy(page_id.0) {
            Some(page) => {
                assert(self.pages().contains_key(page_id.0) && self.pages()[page_id.0] == page@);
                Ok(page)
            },
            None => {
                let r = self.committed.page_file().read_page(page_id);
                proof {
                    let c = self.committed.pages().file().contents();
                    if self.modeled() && r is Ok {
                        assert(file_page(c, page_id.0) is Some);
                        assert(file_pages(c).contains_key(page_id.0));
                        assert(self.pages().contains_key(page_id.0));
                    }
                }
                r
            },
        }
    }

    fn store_page(&mut self, page: Page) -> (r: DbResult<()>) {
        let page_id = page.header()?.page_id;
        let ghost before = self.pages();
        self.dirty.stage(page_id.0, page);
        assert(self.pages() =~= before.insert(page_id.0, page@));
        Ok(())
    }

    fn allocate_page(&mut self) -> (r: DbResult<PageId>) {
        let page_id = self.next_page_id;
        if page_id == u64::MAX {
            return Err(user_error("page id overflow"));
        }
        let ghost before = self.pages();
        self.next_page_id = page_id + 1;
        assert(self.pages() == before);
        Ok(PageId(page_id))
    }
}

impl<'a, F: VfsFile> Transaction<'a, F> {
    /// Create an empty B+Tree index relation inside this transaction: its root
    /// leaf and the catalog page are staged.
    pub fn create_index(&mut self, name: &str, table_id: RelationId, column_name: &str) -> (r: DbResult<(RelationId, PageId)>)
        requires
            old(self).wf(),
        ensures
            final(self).wf(),
            final(self).manager == old(self).manager,
            final(self).spec_state() == old(self).spec_state(),
            final(self).spec_tx_id() == old(self).spec_tx_id(),
            old(self).spec_state() != TransactionState::Active ==> r is Err && r->Err_0 is User
                && final(self).working() == old(self).working() && final(self).dirty() == old(self).dirty(),
            old(self).spec_state() == TransactionState::Active ==> {
                let o = old(self).working();
                &&& !valid_name(name@) || !valid_name(column_name@) || has_name(o.relations, name@)
                    || !has_id(o.relations, table_id.0)
                    ==> r is Err && r->Err_0 is User && final(self).working() == o && final(self).dirty() == old(self).dirty()
                &&& r matches Ok((id, root)) ==> id.0 == o.next_relation_id && root.0 == o.next_page_id
                    && final(self).catalog_page_current()
                    && final(self).working().next_page_id == o.next_page_id + 1
                    && final(self).working().relations.len() == o.relations.len() + 1
                    && final(self).working().relations.subrange(0, o.relations.len() as int) == o.relations
            },
            old(self).file_modeled() && r is Ok ==> final(self).tx_pages() == old(self).tx_pages()
                .insert(old(self).working().next_page_id, final(self).tx_pages()[old(self).working().next_page_id])
                .insert(CATALOG_PAGE, final(self).tx_pages()[CATALOG_PAGE]),
            r is Ok && old(self).filing_ready() ==> final(self).filing_ready(),
    {
        self.ensure_active()?;
        let ghost o = self.working();
        let (index_relation_id, root_page_id) = self.working_catalog.create_index_metadata(name, table_id, column_name)?;
        self.stage_new_root(root_page_id)?;
        proof {
            if old(self).file_modeled() {
                lemma_pages_below_after(old(self).tx_pages(), self.tx_pages(), o.next_page_id, self.working().next_page_id);
            }
        }
        Ok((index_relation_id, root_page_id))
    }

    /// Stage an empty root leaf at page `root_page_id` and the catalog page.
    #[verifier::spinoff_prover]
    #[verifier::rlimit(60)]
    fn stage_new_root(&mut self, root_page_id: PageId) -> (r: DbResult<()>)
        requires
            old(self).wf(),
        ensures
            final(self).wf(),
            final(self).manager == old(self).manager,
            final(self).spec_state() == old(self).spec_state(),
            final(self).spec_tx_id() == old(self).spec_tx_id(),
            final(self).working() == old(self).working(),
            r is Ok ==> final(self).catalog_page_current(),
            r is Ok ==> !leaf_page(final(self).tx_pages(), CATALOG_PAGE),
            r is Ok && old(self).file_modeled() ==> final(self).tx_pages().dom()
                =~= old(self).tx_pages().dom().insert(root_page_id.0).insert(CATALOG_PAGE),
            r is Ok && old(self).file_modeled() ==> final(self).tx_pages() == old(self).tx_pages()
                .insert(root_page_id.0, final(self).tx_pages()[root_page_id.0])
                .insert(CATALOG_PAGE, final(self).tx_pages()[CATALOG_PAGE]),
    {
        let ghost d0 = self.dirty();
        let mut dirty = DirtyPages::new();
        std::mem::swap(&mut dirty, &mut self.dirty_pages);
        let next_page_id = self.working_catalog.next_page_id();
        let mut page_store = TransactionIndexPageStore { dirty, next_page_id, committed: &self.manager.store };
        let ghost start = page_store;
        assert(start.pages() == old(self).tx_pages());
        let initialized = crate::index::initialize_root(&mut page_store, root_page_id);
        let ghost after = page_store;
        let TransactionIndexPageStore { dirty, next_page_id, committed } = page_store;
        self.dirty_pages = dirty;
        initialized?;
        let ghost d1 = self.dirty();
        assert(after.backing() == start.backing());
        assert(self.tx_pages() =~= after.pages());
        self.mark_catalog_dirty()?;
        proof {
            let f = file_pages(self.manager.data_file().contents());
            lemma_union_inserts(f, d0, d1, self.dirty(), root_page_id.0, old(self).file_modeled());
            lemma_catalog_page_not_leaf(self.dirty()[CATALOG_PAGE], e_catalog(self.working()));
        }
        Ok(())
    }

    /// Insert one entry into a B+Tree index relation; when the root splits,
    /// the new root is recorded in the working catalog.
    #[verifier::spinoff_prover]
    #[verifier::rlimit(100)]
    pub fn insert_index_entry(&mut self, index_relation_id: RelationId, key: IndexKey, row_id: RowId) -> (r: DbResult<()>)
        requires
            old(self).wf(),
        ensures
            final(self).wf(),
            final(self).manager == old(self).manager,
            final(self).spec_state() == old(self).spec_state(),
            final(self).spec_tx_id() == old(self).spec_tx_id(),
            old(self).spec_state() != TransactionState::Active ==> r is Err && r->Err_0 is User
                && final(self).working() == old(self).working() && final(self).dirty() == old(self).dirty(),
            old(self).spec_state() == TransactionState::Active && index_root(old(self).working(), index_relation_id.0) is None
                ==> r is Err && r->Err_0 is User && final(self).working() == old(self).working()
                && final(self).dirty() == old(self).dirty(),
            r is Ok ==> final(self).catalog_page_current(),
            r is Ok && old(self).manager.data_file().modeled() && old(self).pages_below_next()
                && 0 < old(self).working().next_page_id && !leaf_page(old(self).tx_pages(), CATALOG_PAGE)
                ==> row_held(final(self).tx_pages(), key@, row_id),
            r is Ok ==> index_root(final(self).working(), index_relation_id.0) is Some,
            old(self).spec_state() == TransactionState::Active && old(self).file_modeled()
                && index_insert_ok(old(self).tx_pages(), old(self).working(), index_relation_id.0, EntryView { key: key@, row_id })
                ==> r is Ok,
            r is Ok && old(self).manager.data_file().modeled() && old(self).pages_below_next()
                && 0 < old(self).working().next_page_id && !leaf_page(old(self).tx_pages(), CATALOG_PAGE)
                ==> exists|mid: Map<u64, Seq<u8>>, split: Option<(KeyView, u64)>, t: InsertTrace, p: Map<u64, Seq<u8>>|
                    #[trigger] insert_outcome(old(self).tx_pages(), mid, index_root(old(self).working(), index_relation_id.0)->0,
                        EntryView { key: key@, row_id }, split, crate::index::MAX_DEPTH as nat, t)
                    && #[trigger] root_outcome(mid, p, index_root(old(self).working(), index_relation_id.0)->0, split,
                        index_root(final(self).working(), index_relation_id.0)->0)
                    && final(self).tx_pages() == p.insert(CATALOG_PAGE, final(self).tx_pages()[CATALOG_PAGE]),
            final(self).working().next_page_id >= old(self).working().next_page_id,
            r is Ok ==> !leaf_page(final(self).tx_pages(), CATALOG_PAGE),
            r is Ok && old(self).manager.data_file().modeled() && old(self).pages_below_next() && 0 < old(self).working().next_page_id
                ==> final(self).pages_below_next(),
            r is Ok && old(self).filing_ready() ==> final(self).filing_ready()
                && entry_filed(old(self).tx_pages(), old(self).working(), final(self).tx_pages(), final(self).working(),
                    index_relation_id.0, EntryView { key: key@, row_id }),
    {
        self.ensure_active()?;
        let ghost k = key@;
        let ghost e = EntryView { key: k, row_id };
        let ghost ok = old(self).file_modeled()
            && index_insert_ok(old(self).tx_pages(), old(self).working(), index_relation_id.0, e);
        let ghost i0: int = if ok { lemma_first_with_id_exists(old(self).working().relations, index_relation_id.0) } else { 0 };
        proof {
            if ok {
                let rels = old(self).working().relations;
                let j = choose|j: int| first_with_id(rels, index_relation_id.0, j);
                lemma_first_with_id_unique(rels, index_relation_id.0, i0, j);
                assert(rels[i0].storage is BPlusTree);
                assert(index_root(old(self).working(), index_relation_id.0) is Some);
            }
        }
        let root_page_id = index_root_of(&self.working_catalog, index_relation_id)?;
        proof {
            if ok {
                let rels = old(self).working().relations;
                let j = choose|j: int| first_with_id(rels, index_relation_id.0, j);
                lemma_first_with_id_unique(rels, index_relation_id.0, i0, j);
                assert(rels[i0].storage matches StorageView::BPlusTree(ix) && ix.root_page_id == root_page_id.0);
            }
        }
        let mut dirty = DirtyPages::new();
        std::mem::swap(&mut dirty, &mut self.dirty_pages);
        let next_page_id = self.working_catalog.next_page_id();
        let mut page_store = TransactionIndexPageStore { dirty, next_page_id, committed: &self.manager.store };
        let ghost start = page_store;
        proof {
            assert(start.pages() == old(self).tx_pages());
            if ok {
                assert(start.modeled());
                assert(start.alloc_budget() > crate::index::MAX_DEPTH);
                assert(insert_ok(start.pages(), root_page_id.0, e, crate::index::MAX_DEPTH as nat));
            }
        }
        let inserted = crate::index::insert(&mut page_store, root_page_id, key, row_id);
        let ghost after = page_store;
        let TransactionIndexPageStore { dirty, next_page_id: next_after, committed } = page_store;
        self.dirty_pages = dirty;
        proof {
            if start.next_page_id > 0 {
                assert(start.allocated((start.next_page_id - 1) as u64));
                assert(after.allocated((start.next_page_id - 1) as u64));
            }
        }
        self.working_catalog.advance_next_page_id(next_after);
        let new_root_page_id = inserted?;
        let ghost id = choose|id: u64| #[trigger] leaf_holds(after.pages(), id, k, row_id)
            && (!start.allocated(id) || leaf_page(start.pages(), id));
        proof {
            assert(after.backing() == start.backing());
            assert(self.tx_pages() =~= after.pages());
        }
        let ghost w_after = self.working();
        if new_root_page_id != root_page_id {
            self.working_catalog.set_index_root_page(index_relation_id, new_root_page_id)?;
        }
        proof {
            lemma_index_root_after(w_after, self.working(), old(self).working(), index_relation_id.0, root_page_id.0,
                new_root_page_id.0);
        }
        proof {
            if ok {
                let target = with_index_root(old(self).working(), i0, next_after, new_root_page_id.0);
                assert(self.working().relations =~= target.relations);
                assert(self.working() == target);
                assert(catalog_fits_page(target));
            }
        }
        let ghost before_mark = self.tx_pages();
        self.mark_catalog_dirty()?;
        proof {
            if old(self).manager.data_file().modeled() && old(self).pages_below_next()
                && 0 < old(self).working().next_page_id && !leaf_page(old(self).tx_pages(), CATALOG_PAGE) {
                assert(start.allocates_fresh());
                assert(start.modeled());
                assert(self.tx_pages() =~= before_mark.insert(CATALOG_PAGE, self.tx_pages()[CATALOG_PAGE]));
                let e = EntryView { key: k, row_id };
                let (mid, sp, t) = choose|mid: Map<u64, Seq<u8>>, split: Option<(KeyView, u64)>, t: InsertTrace|
                    #[trigger] insert_outcome(start.pages(), mid, root_page_id.0, e, split, crate::index::MAX_DEPTH as nat, t)
                    && root_outcome(mid, after.pages(), root_page_id.0, split, new_root_page_id.0);
                assert(insert_outcome(old(self).tx_pages(), mid, index_root(old(self).working(), index_relation_id.0)->0,
                    e, sp, crate::index::MAX_DEPTH as nat, t));
                assert(root_outcome(mid, before_mark, index_root(old(self).working(), index_relation_id.0)->0, sp,
                    index_root(self.working(), index_relation_id.0)->0));
            }
        }
        proof {
            if old(self).manager.data_file().modeled() && old(self).pages_below_next()
                && 0 < old(self).working().next_page_id && !leaf_page(old(self).tx_pages(), CATALOG_PAGE) {
                assert(start.allocates_fresh());
                assert(id != CATALOG_PAGE);
                assert(self.tx_pages()[id] == before_mark[id]);
                assert(leaf_holds(self.tx_pages(), id, k, row_id));
            }
        }
        proof {
            lemma_catalog_page_not_leaf(self.dirty()[CATALOG_PAGE], e_catalog(self.working()));
            assert(self.tx_pages()[CATALOG_PAGE] == self.dirty()[CATALOG_PAGE]);
            if old(self).manager.data_file().modeled() && old(self).pages_below_next() && 0 < old(self).working().next_page_id {
                assert(start.allocates_fresh());
                assert forall|pid: u64| #[trigger] self.tx_pages().contains_key(pid) implies pid < self.working().next_page_id by {
                    if pid != CATALOG_PAGE {
                        assert(before_mark.contains_key(pid));
                        assert(after.pages().contains_key(pid));
                    }
                }
            }
            lemma_pages_filing_ready_def(old(self).tx_pages(), old(self).working().next_page_id);
            lemma_pages_filing_ready_def(self.tx_pages(), self.working().next_page_id);
        }
        Ok(())
    }
}

/// Pages `pm` with next page id `next` let index filing be traced: every
/// page is below `next`, which is not the catalog page's id, and the catalog
/// page holds no leaf.
#[verifier::opaque]
pub open spec fn pages_filing_ready(pm: Map<u64, Seq<u8>>, next: u64) -> bool {
    &&& forall|id: u64| #[trigger] pm.contains_key(id) ==> id < next
    &&& 0 < next
    &&& !leaf_page(pm, CATALOG_PAGE)
}

/// Pages `p1` and working catalog `w1` are what filing entry `e` in index
/// relation `idx` leaves, from pages `p0` and working catalog `w0`: the tree at
/// the index's root in `w0` takes the entry (`insert_outcome`), its top is
/// settled (`root_outcome`) with the index's root in `w1`, the catalog page
/// is rewritten, and the entry's row is held under its key.
pub open spec fn entry_filed(p0: Map<u64, Seq<u8>>, w0: CatalogView, p1: Map<u64, Seq<u8>>, w1: CatalogView, idx: u64, e: EntryView) -> bool {
    &&& row_held(p1, e.key, e.row_id)
    &&& index_root(w0, idx) is Some
    &&& index_root(w1, idx) is Some
    &&& exists|mid: Map<u64, Seq<u8>>, split: Option<(KeyView, u64)>, t: InsertTrace, p: Map<u64, Seq<u8>>|
        #![trigger insert_outcome(p0, mid, index_root(w0, idx)->0, e, split, crate::index::MAX_DEPTH as nat, t),
            root_outcome(mid, p, index_root(w0, idx)->0, split, index_root(w1, idx)->0)]
        insert_outcome(p0, mid, index_root(w0, idx)->0, e, split, crate::index::MAX_DEPTH as nat, t)
        && root_outcome(mid, p, index_root(w0, idx)->0, split, index_root(w1, idx)->0)
        && p1 == p.insert(CATALOG_PAGE, p1[CATALOG_PAGE])
}

/// Catalog `c` with next page id `next` and, where relation `i` is a
/// B+Tree, that tree's root set to `root`.
pub open spec fn with_index_root(c: CatalogView, i: int, next: u64, root: u64) -> CatalogView {
    CatalogView {
        next_page_id: next,
        relations: match c.relations[i].storage {
            StorageView::BPlusTree(ix) => c.relations.update(i, RelationView {
                storage: StorageView::BPlusTree(IndexView { root_page_id: root, ..ix }),
                ..c.relations[i]
            }),
            StorageView::Heap(_) => c.relations,
        },
        ..c
    }
}

/// Inserting entry `e` into index relation `idx` of catalog `c` cannot fail
/// over the transaction's pages `pm`: the relation is an index whose tree
/// takes the entry (`insert_ok`), a new root would fit its page, a page id
/// per level is left, and the catalog fits its page whatever next page id
/// and root the insert leaves.
pub open spec fn index_insert_ok(pm: Map<u64, Seq<u8>>, c: CatalogView, idx: u64, e: EntryView) -> bool {
    &&& has_id(c.relations, idx)
    &&& u64::MAX - c.next_page_id > crate::index::MAX_DEPTH
    &&& forall|i: int| #[trigger] first_with_id(c.relations, idx, i) ==> {
        &&& c.relations[i].kind == RelationKind::Index
        &&& c.relations[i].storage matches StorageView::BPlusTree(ix) && {
            &&& insert_ok(pm, ix.root_page_id, e, crate::index::MAX_DEPTH as nat)
            &&& split_key(pm, ix.root_page_id, e, crate::index::MAX_DEPTH as nat) matches Some(sep)
                ==> forall|right: u64| #[trigger] node_page_ok(new_root_node(sep, ix.root_page_id, right))
        }
        &&& forall|n: u64, root: u64| #[trigger] catalog_fits_page(with_index_root(c, i, n, root))
    }
}

/// After an index insert over working catalog `o` left catalog `w` (only
/// page allocation changed it), recording the returned root `nr` where it
/// differs from the old root `root` gives a catalog `n` whose index `id`
/// has root `nr`.
proof fn lemma_index_root_after(w: CatalogView, n: CatalogView, o: CatalogView, id: u64, root: u64, nr: u64)
    requires
        index_root(o, id) == Some(root),
        w.relations == o.relations,
        nr == root ==> n == w,
        nr != root ==> exists|i: int| #[trigger] first_with_id(w.relations, id, i) && (match w.relations[i].storage {
            StorageView::BPlusTree(ix) => n.relations == w.relations.update(i, RelationView {
                storage: StorageView::BPlusTree(IndexView { root_page_id: nr, ..ix }),
                ..w.relations[i]
            }),
            StorageView::Heap(_) => false,
        }),
    ensures
        index_root(n, id) == Some(nr),
{
    if nr != root {
        let i = choose|i: int| #[trigger] first_with_id(w.relations, id, i) && (match w.relations[i].storage {
            StorageView::BPlusTree(ix) => n.relations == w.relations.update(i, RelationView {
                storage: StorageView::BPlusTree(IndexView { root_page_id: nr, ..ix }),
                ..w.relations[i]
            }),
            StorageView::Heap(_) => false,
        });
        assert(first_with_id(n.relations, id, i));
        let j = choose|j: int| first_with_id(n.relations, id, j);
        if j < i { assert(n.relations[j].id == w.relations[j].id); }
        if i < j { assert(n.relations[i].id == id); }
    }
}

/// The first extension named `name` among `exts` carries ABI version `abi`
/// and kind `kind`.
pub open spec fn extension_registered_as(exts: Seq<ExtensionView>, name: Seq<char>, abi: u32, kind: Seq<char>) -> bool {
    exists|i: int| #[trigger] first_extension(exts, name, i) && exts[i].abi_version == abi && exts[i].kind == kind
}

/// Heap relation `rid` of catalog `c` can take a row of `len` bytes in a
/// transaction of its own over committed pages `pm`: the insert cannot
/// fail, none of the relation's heap pages nor the next page id is the
/// catalog page, and every page it may write has an offset that fits.
pub open spec fn autocommit_row_ok(c: CatalogView, pm: Map<u64, Seq<u8>>, rid: u64, len: int) -> bool {
    &&& has_id(c.relations, rid)
    &&& c.next_page_id != CATALOG_PAGE
    &&& spec_page_offset(PageId(c.next_page_id)) + PAGE_SIZE <= usize::MAX
    &&& forall|i: int| #[trigger] first_with_id(c.relations, rid, i) ==> {
        &&& row_insert_ok(pm, c, i, len)
        &&& !storage_heap_pages(c.relations[i].storage).contains(CATALOG_PAGE)
        &&& forall|p: u64| storage_heap_pages(c.relations[i].storage).contains(p)
            ==> #[trigger] spec_page_offset(PageId(p)) + PAGE_SIZE <= usize::MAX
    }
}

/// Pages `pm0` ready for index filing with next page id `next`, with page
/// `next` and the catalog page, which holds no leaf, written, are ready with
/// next page id `next + 1`.
proof fn lemma_pages_below_after(pm0: Map<u64, Seq<u8>>, pm: Map<u64, Seq<u8>>, next: u64, n1: u64)
    requires
        n1 == next + 1,
        pm.dom() =~= pm0.dom().insert(next).insert(CATALOG_PAGE),
        !leaf_page(pm, CATALOG_PAGE),
    ensures
        pages_filing_ready(pm0, next) ==> pages_filing_ready(pm, n1),
{
    reveal(pages_filing_ready);
}

/// Pages of a file under staged pages `d0`, after page `root` is written
/// (leaving staged pages `d1`) and then the catalog page is staged (leaving
/// `d2`), are the pages before with those two written.
proof fn lemma_union_inserts(f: Map<u64, Seq<u8>>, d0: Map<u64, Seq<u8>>, d1: Map<u64, Seq<u8>>, d2: Map<u64, Seq<u8>>,
    root: u64, modeled: bool)
    requires
        modeled ==> f.union_prefer_right(d1) == f.union_prefer_right(d0).insert(root, f.union_prefer_right(d1)[root]),
        d2.dom() == d1.dom().insert(CATALOG_PAGE),
        forall|k: u64| k != CATALOG_PAGE ==> #[trigger] d2.contains_key(k) == d1.contains_key(k)
            && (d1.contains_key(k) ==> d2[k] == d1[k]),
    ensures
        modeled ==> f.union_prefer_right(d2) == f.union_prefer_right(d0).insert(root, f.union_prefer_right(d2)[root])
            .insert(CATALOG_PAGE, f.union_prefer_right(d2)[CATALOG_PAGE]),
        modeled ==> f.union_prefer_right(d2).dom() =~= f.union_prefer_right(d0).dom().insert(root).insert(CATALOG_PAGE),
{
    if modeled {
        let u1 = f.union_prefer_right(d1);
        let u2 = f.union_prefer_right(d2);
        assert(u2 =~= u1.insert(CATALOG_PAGE, d2[CATALOG_PAGE]));
        if root != CATALOG_PAGE {
            assert(u2[root] == u1[root]);
        }
        assert(u2 =~= f.union_prefer_right(d0).insert(root, u2[root]).insert(CATALOG_PAGE, u2[CATALOG_PAGE]));
    }
}

/// Rewriting page `id` among pages `pm0`, where it already was and which is
/// not the catalog page, keeps the pages ready for index filing.
proof fn lemma_one_page_written(pm0: Map<u64, Seq<u8>>, pm: Map<u64, Seq<u8>>, id: u64, next: u64)
    requires
        pm0.contains_key(id),
        id != CATALOG_PAGE,
        pm == pm0.insert(id, pm[id]),
    ensures
        pages_filing_ready(pm0, next) ==> pages_filing_ready(pm, next),
{
    reveal(pages_filing_ready);
    if pages_filing_ready(pm0, next) {
        assert(pm[CATALOG_PAGE] == pm0[CATALOG_PAGE] || !pm0.contains_key(CATALOG_PAGE));
    }
}

/// Pages `pm0` ready for index filing with next page id `next`, with page
/// `next` and then the catalog page, which holds no leaf, written, are ready
/// with next page id `next + 1`.
proof fn lemma_two_pages_below(pm0: Map<u64, Seq<u8>>, pm1: Map<u64, Seq<u8>>, pm: Map<u64, Seq<u8>>, next: u64)
    requires
        next < u64::MAX,
        pm1 == pm0.insert(next, pm1[next]),
        pm == pm1.insert(CATALOG_PAGE, pm[CATALOG_PAGE]),
        !leaf_page(pm, CATALOG_PAGE),
    ensures
        pages_filing_ready(pm0, next) ==> pages_filing_ready(pm, (next + 1) as u64),
{
    reveal(pages_filing_ready);
    assert forall|k: u64| #[trigger] pm.contains_key(k) implies k == CATALOG_PAGE || k == next || pm0.contains_key(k) by {
        if k != CATALOG_PAGE && k != next {
            assert(pm1.contains_key(k));
        }
    }
}

/// What being ready for index filing asks of pages and the next page id.
pub(crate) proof fn lemma_pages_filing_ready_def(pm: Map<u64, Seq<u8>>, next: u64)
    ensures
        pages_filing_ready(pm, next) == ((forall|id: u64| #[trigger] pm.contains_key(id) ==> id < next) && 0 < next
            && !leaf_page(pm, CATALOG_PAGE)),
{
    reveal(pages_filing_ready);
}

/// A catalog page holds no B+Tree node.
pub(crate) proof fn lemma_catalog_page_not_leaf(p: Seq<u8>, record: Seq<u8>)
    requires
        is_catalog_page(p, record),
    ensures
        page_node(p) is None,
{
    reveal(is_catalog_page);
    reveal(page_node);
}

/// A catalog page is a valid page.
pub(crate) proof fn lemma_catalog_page_valid(p: Seq<u8>, record: Seq<u8>)
    requires
        is_catalog_page(p, record),
    ensures
        page_valid(p),
{
    reveal(is_catalog_page);
}

/// Each logged page image takes one record header and the page itself.
pub(crate) proof fn lemma_image_log_len(start: int, tx: u64, imgs: Seq<Seq<u8>>)
    requires
        forall|i: int| 0 <= i < imgs.len() ==> (#[trigger] imgs[i]).len() == PAGE_SIZE,
    ensures
        image_log(start, tx, imgs).len() == imgs.len() * (WAL_HEADER_SIZE + PAGE_SIZE),
    decreases imgs.len(),
{
    if imgs.len() > 0 {
        let prev = imgs.drop_last();
        assert forall|i: int| 0 <= i < prev.len() implies (#[trigger] prev[i]).len() == PAGE_SIZE by {
            assert(prev[i] == imgs[i]);
        }
        lemma_image_log_len(start, tx, prev);
        let img = imgs.last();
        assert(img == imgs[imgs.len() - 1]);
        lemma_encode_layout(WalRecordView {
            lsn: (start + image_log(start, tx, prev).len()) as u64,
            kind: WalKindView::PageImage(tx, spec_header(img).page_id.0, img),
        });
    }
}

impl<'a, F: VfsFile> Transaction<'a, F> {
    /// A transaction whose staged pages are valid pages with id `a` or the
    /// catalog page, `a` having an offset that fits, stages at most two
    /// full pages that can all be written.
    pub(crate) proof fn lemma_two_pages_writable(&self, a: u64)
        requires
            self.wf(),
            forall|k: u64| #[trigger] self.dirty().contains_key(k) ==> k == a || k == CATALOG_PAGE,
            self.dirty().contains_key(a) ==> page_valid(self.dirty()[a]),
            self.dirty().contains_key(CATALOG_PAGE) ==> page_valid(self.dirty()[CATALOG_PAGE]),
            spec_page_offset(PageId(a)) + PAGE_SIZE <= usize::MAX,
        ensures
            pages_writable(self.staged_ids(), self.staged()),
            self.staged().len() <= 2,
            forall|i: int| 0 <= i < self.staged().len() ==> (#[trigger] self.staged()[i]).len() == PAGE_SIZE,
    {
        self.lemma_staged();
        let ids = self.staged_ids();
        if ids.len() > 2 {
            assert(self.dirty().contains_key(ids[0]));
            assert(self.dirty().contains_key(ids[1]));
            assert(self.dirty().contains_key(ids[2]));
            assert(ids[0] < ids[1]);
            assert(ids[1] < ids[2]);
            assert(false);
        }
        assert forall|i: int| 0 <= i < self.staged().len() implies page_valid(#[trigger] self.staged()[i])
            && spec_page_offset(PageId(ids[i])) + PAGE_SIZE <= usize::MAX by {
            assert(self.dirty().contains_key(ids[i]));
            assert(spec_page_offset(PageId(CATALOG_PAGE)) == 0);
        }
    }
}

impl<'a, F: VfsFile> Transaction<'a, F> {
    /// A transaction that has staged nothing sees the pages of its data file.
    pub(crate) proof fn lemma_nothing_staged(&self, c0: Seq<u8>, m: bool)
        requires
            self.dirty() == Map::<u64, Seq<u8>>::empty(),
            self.manager.data_file().contents() == c0,
            self.manager.data_file().modeled() == m,
        ensures
            self.tx_pages() == file_pages(c0),
            self.file_modeled() == m,
    {
        assert(self.tx_pages() =~= file_pages(c0));
    }

    /// A transaction that has staged nothing, over a modeled data file with
    /// bytes `c0`, can take a row of `len` bytes into heap relation `rid`
    /// when its working catalog allows it (`autocommit_row_ok`).
    pub(crate) proof fn lemma_row_insert_ready(&self, c0: Seq<u8>, rid: u64, len: int) -> (i: int)
        requires
            self.wf(),
            self.dirty() == Map::<u64, Seq<u8>>::empty(),
            self.manager.data_file().modeled(),
            self.manager.data_file().contents() == c0,
            autocommit_row_ok(self.working(), file_pages(c0), rid, len),
        ensures
            self.file_modeled(),
            first_with_id(self.working().relations, rid, i),
            row_insert_ok(self.tx_pages(), self.working(), i, len),
    {
        assert(self.tx_pages() =~= file_pages(c0));
        lemma_first_with_id_exists(self.working().relations, rid)
    }

    /// After a row was put into page `row.page_id` of heap relation `rid`,
    /// over committed catalog `cat` and data-file bytes `c0` that allow it,
    /// with nothing else staged, the staged pages can be written, their log
    /// fits three record headers and two pages, and the row's page is among
    /// them as it was staged.
    pub(crate) proof fn lemma_row_commit_ready(&self, c0: Seq<u8>, cat: CatalogView, rid: u64, row: RowId, record: Seq<u8>, start: int) -> (k: int)
        requires
            self.wf(),
            0 <= start <= u64::MAX,
            autocommit_row_ok(cat, file_pages(c0), rid, record.len() as int),
            exists|i: int| #[trigger] first_with_id(cat.relations, rid, i) && {
                ||| self.working() == cat && storage_heap_pages(cat.relations[i].storage).contains(row.page_id.0)
                ||| row.page_id.0 == cat.next_page_id && row.slot_id.0 == 0
                    && self.working() == with_heap_page(CatalogView { next_page_id: (cat.next_page_id + 1) as u64, ..cat }, i, cat.next_page_id)
                    && self.catalog_page_current()
            },
            self.dirty().dom().subset_of(Set::<u64>::empty().insert(row.page_id.0).insert(CATALOG_PAGE)),
            row.page_id.0 != CATALOG_PAGE && self.dirty().contains_key(CATALOG_PAGE) ==> self.catalog_page_current(),
            row.page_id.0 != CATALOG_PAGE ==> self.dirty().contains_key(row.page_id.0)
                && row_page_ok(self.dirty()[row.page_id.0], row),
        ensures
            row.page_id.0 != CATALOG_PAGE,
            pages_writable(self.staged_ids(), self.staged()),
            commit_log(start, self.spec_tx_id(), self.staged()).len() <= 3 * WAL_HEADER_SIZE + 2 * PAGE_SIZE,
            0 <= k < self.staged_ids().len(),
            self.staged_ids()[k] == row.page_id.0,
            self.staged()[k] == self.dirty()[row.page_id.0],
            exists|j: int| #[trigger] first_with_id(self.working().relations, rid, j)
                && storage_heap_pages(self.working().relations[j].storage).contains(row.page_id.0),
    {
        let i = choose|i: int| #[trigger] first_with_id(cat.relations, rid, i) && {
            ||| self.working() == cat && storage_heap_pages(cat.relations[i].storage).contains(row.page_id.0)
            ||| row.page_id.0 == cat.next_page_id && row.slot_id.0 == 0
                && self.working() == with_heap_page(CatalogView { next_page_id: (cat.next_page_id + 1) as u64, ..cat }, i, cat.next_page_id)
                && self.catalog_page_current()
        };
        assert(row.page_id.0 != CATALOG_PAGE);
        assert(spec_page_offset(PageId(row.page_id.0)) + PAGE_SIZE <= usize::MAX);
        let w = self.working().relations;
        assert(first_with_id(w, rid, i)) by {
            assert forall|m: int| 0 <= m < i implies #[trigger] w[m].id != rid by {
                assert(w[m] == cat.relations[m]);
            }
        }
        assert(storage_heap_pages(w[i].storage).contains(row.page_id.0)) by {
            if self.working() != cat {
                let hp = storage_heap_pages(cat.relations[i].storage).push(cat.next_page_id);
                assert(storage_heap_pages(w[i].storage) == hp);
                assert(hp[hp.len() - 1] == row.page_id.0);
            }
        }
        if self.dirty().contains_key(CATALOG_PAGE) {
            lemma_catalog_page_valid(self.dirty()[CATALOG_PAGE], e_catalog(self.working()));
        }
        assert forall|k: u64| #[trigger] self.dirty().contains_key(k) implies k == row.page_id.0 || k == CATALOG_PAGE by {
            assert(self.dirty().dom().contains(k));
        }
        self.lemma_two_pages_writable(row.page_id.0);
        let imgs = self.staged();
        lemma_image_log_len(start, self.spec_tx_id(), imgs);
        let p = image_log(start, self.spec_tx_id(), imgs);
        lemma_encode_layout(WalRecordView { lsn: (start + p.len()) as u64, kind: WalKindView::CommitTx(self.spec_tx_id()) });
        self.lemma_staged();
        let ids = self.staged_ids();
        assert(ids.contains(row.page_id.0));
        let k = choose|k: int| 0 <= k < ids.len() && ids[k] == row.page_id.0;
        k
    }
}

/// A transaction that staged nothing but the catalog page can log and
/// write its pages when the WAL leaves room for a begin record, two page
/// images and a commit record.
proof fn lemma_register_commit_fits<'a, F: VfsFile>(transaction: &Transaction<'a, F>, start: int)
    requires
        0 <= start <= u64::MAX,
        transaction.wf(),
        forall|k: u64| #[trigger] transaction.dirty().contains_key(k) ==> k == CATALOG_PAGE,
        transaction.dirty().contains_key(CATALOG_PAGE)
            ==> is_catalog_page(transaction.dirty()[CATALOG_PAGE], e_catalog(transaction.working())),
    ensures
        pages_writable(transaction.staged_ids(), transaction.staged()),
        commit_log(start, transaction.spec_tx_id(), transaction.staged()).len() <= 3 * WAL_HEADER_SIZE + 2 * PAGE_SIZE,
{
    if transaction.dirty().contains_key(CATALOG_PAGE) {
        lemma_catalog_page_valid(transaction.dirty()[CATALOG_PAGE], e_catalog(transaction.working()));
    }
    assert(spec_page_offset(PageId(CATALOG_PAGE)) == 0);
    transaction.lemma_two_pages_writable(CATALOG_PAGE);
    let imgs = transaction.staged();
    lemma_image_log_len(start, transaction.spec_tx_id(), imgs);
    let p = image_log(start, transaction.spec_tx_id(), imgs);
    lemma_encode_layout(WalRecordView { lsn: (start + p.len()) as u64, kind: WalKindView::CommitTx(transaction.spec_tx_id()) });
}

impl<F: VfsFile> TransactionalStore<F> {
    /// Create a table in its own transaction.
    pub fn create_table_autocommit(&mut self, name: &str, columns: Vec<ColumnDef>) -> (r: DbResult<RelationId>)
        ensures
            old(self)@.active_writer ==> r is Err && r->Err_0 is Retryable && final(self)@ == old(self)@,
            !old(self)@.active_writer ==> !final(self)@.active_writer,
            !valid_name(name@) || !columns_valid(columns_view(columns@)) || has_name(old(self)@.catalog.relations, name@)
                ==> r is Err && final(self)@.catalog == old(self)@.catalog,
            r matches Ok(id) ==> id.0 == old(self)@.catalog.next_relation_id
                && final(self)@.catalog == with_new_table(old(self)@.catalog, name@, columns_view(columns@)),
            r is Err ==> final(self)@.catalog == old(self)@.catalog,
            !old(self)@.active_writer && old(self)@.next_tx_id < u64::MAX && old(self).wal_in_sync() && old(self).data_file().modeled()
                && valid_name(name@) && columns_valid(columns_view(columns@)) && !has_name(old(self)@.catalog.relations, name@)
                && old(self)@.catalog.next_relation_id < u64::MAX && old(self)@.catalog.next_page_id < u64::MAX
                && catalog_fits_page(with_new_table(old(self)@.catalog, name@, columns_view(columns@)))
                && spec_page_offset(PageId(old(self)@.catalog.next_page_id)) + PAGE_SIZE <= usize::MAX
                && old(self).wal_file().contents().len() + 4 * WAL_HEADER_SIZE + 2 * PAGE_SIZE <= usize::MAX
                ==> r is Ok,
    {
        let ghost w0 = self.wal_file().contents();
        let ghost next = self@.catalog.next_page_id;
        proof {
            lemma_encode_layout(WalRecordView { lsn: w0.len() as u64, kind: WalKindView::BeginTx(self@.next_tx_id) });
        }
        let mut transaction = self.begin()?;
        let relation_id = match transaction.create_table(name, columns) {
            Ok(id) => id,
            Err(error) => {
                transaction.abandon();
                return Err(error);
            },
        };
        proof {
            if transaction.manager.wal_in_sync() && transaction.manager.data_file().modeled()
                && spec_page_offset(PageId(next)) + PAGE_SIZE <= usize::MAX {
                reveal(is_catalog_page);
                reveal(is_empty_heap_page);
                assert(transaction.dirty().dom() =~= Set::<u64>::empty().insert(next).insert(CATALOG_PAGE));
                transaction.lemma_two_pages_writable(next);
                let w1 = transaction.manager.wal_file().contents();
                let imgs = transaction.staged();
                lemma_image_log_len(w1.len() as int, transaction.spec_tx_id(), imgs);
                let p = image_log(w1.len() as int, transaction.spec_tx_id(), imgs);
                lemma_encode_layout(WalRecordView { lsn: (w1.len() + p.len()) as u64, kind: WalKindView::CommitTx(transaction.spec_tx_id()) });
            }
        }
        transaction.commit()?;
        Ok(relation_id)
    }

    /// Insert one raw row in its own transaction.
    #[verifier::spinoff_prover]
    #[verifier::rlimit(100)]
    pub fn insert_row_autocommit(&mut self, relation_id: RelationId, bytes: &[u8]) -> (r: DbResult<RowId>)
        ensures
            old(self)@.active_writer ==> r is Err && r->Err_0 is Retryable && final(self)@ == old(self)@,
            !old(self)@.active_writer ==> !final(self)@.active_writer,
            !has_id(old(self)@.catalog.relations, relation_id.0) ==> r is Err && final(self)@.catalog == old(self)@.catalog,
            r is Err ==> final(self)@.catalog == old(self)@.catalog,
            r is Ok ==> bytes@.len() <= MAX_PAGE_RECORD,
            !old(self)@.active_writer && old(self)@.next_tx_id < u64::MAX && old(self).wal_in_sync() && old(self).data_file().modeled()
                && autocommit_row_ok(old(self)@.catalog, file_pages(old(self).data_file().contents()), relation_id.0, bytes@.len() as int)
                && old(self).wal_file().contents().len() + 4 * WAL_HEADER_SIZE + 2 * PAGE_SIZE <= usize::MAX
                ==> (r matches Ok(row) && stored_record(final(self).data_file().contents(), row) == Some(bytes@)),
    {
        let ghost w0 = self.wal_file().contents();
        let ghost cat = self@.catalog;
        let ghost c0 = self.data_file().contents();
        let ghost cond = !self@.active_writer && self@.next_tx_id < u64::MAX && self.wal_in_sync() && self.data_file().modeled()
            && autocommit_row_ok(cat, file_pages(c0), relation_id.0, bytes@.len() as int)
            && w0.len() + 4 * WAL_HEADER_SIZE + 2 * PAGE_SIZE <= usize::MAX;
        proof {
            lemma_encode_layout(WalRecordView { lsn: w0.len() as u64, kind: WalKindView::BeginTx(self@.next_tx_id) });
        }
        let mut transaction = self.begin()?;
        proof {
            if cond {
                assert(transaction.tx_pages() =~= file_pages(c0));
                assert(transaction.file_modeled());
                let i0 = lemma_first_with_id_exists(cat.relations, relation_id.0);
                assert(first_with_id(transaction.working().relations, relation_id.0, i0));
                assert(row_insert_ok(transaction.tx_pages(), transaction.working(), i0, bytes@.len() as int));
            }
        }
        let row_id = match transaction.insert_row(relation_id, bytes) {
            Ok(row_id) => row_id,
            Err(error) => {
                transaction.abandon();
                return Err(error);
            },
        };
        let ghost staged_row = transaction.dirty()[row_id.page_id.0];
        proof {
            if cond {
                let i = choose|i: int| #[trigger] first_with_id(cat.relations, relation_id.0, i) && {
                    ||| transaction.working() == cat && storage_heap_pages(cat.relations[i].storage).contains(row_id.page_id.0)
                    ||| row_id.page_id.0 == cat.next_page_id && row_id.slot_id.0 == 0
                        && transaction.working() == with_heap_page(CatalogView { next_page_id: (cat.next_page_id + 1) as u64, ..cat }, i, cat.next_page_id)
                        && transaction.catalog_page_current()
                };
                assert(row_insert_ok(file_pages(c0), cat, i, bytes@.len() as int));
                assert(row_id.page_id.0 != CATALOG_PAGE);
                assert(spec_page_offset(PageId(row_id.page_id.0)) + PAGE_SIZE <= usize::MAX);
                assert(row_page_ok(staged_row, row_id));
                if transaction.dirty().contains_key(CATALOG_PAGE) {
                    lemma_catalog_page_valid(transaction.dirty()[CATALOG_PAGE], e_catalog(transaction.working()));
                }
                assert forall|k: u64| #[trigger] transaction.dirty().contains_key(k) implies k == row_id.page_id.0 || k == CATALOG_PAGE by {
                    assert(transaction.dirty().dom().contains(k));
                }
                transaction.lemma_two_pages_writable(row_id.page_id.0);
                let w1 = transaction.manager.wal_file().contents();
                let imgs = transaction.staged();
                lemma_image_log_len(w1.len() as int, transaction.spec_tx_id(), imgs);
                let p = image_log(w1.len() as int, transaction.spec_tx_id(), imgs);
                lemma_encode_layout(WalRecordView { lsn: (w1.len() + p.len()) as u64, kind: WalKindView::CommitTx(transaction.spec_tx_id()) });
                transaction.lemma_staged();
            }
        }
        let ghost ids = transaction.staged_ids();
        let ghost imgs = transaction.staged();
        transaction.commit()?;
        proof {
            if cond {
                let k = choose|k: int| 0 <= k < ids.len() && ids[k] == row_id.page_id.0;
                let c = self.data_file().contents();
                let off = spec_page_offset(PageId(ids[k]));
                assert(c.subrange(off, off + PAGE_SIZE) == imgs[k]);
                assert(imgs[k] == staged_row);
                assert(PageId(ids[k]) == row_id.page_id);
            }
        }
        Ok(row_id)
    }

    /// Register extension metadata in its own transaction.
    pub fn register_extension_autocommit(&mut self, name: &str, abi_version: u32, kind: &str) -> (r: DbResult<bool>)
        ensures
            old(self)@.active_writer ==> r is Err && r->Err_0 is Retryable && final(self)@ == old(self)@,
            !old(self)@.active_writer ==> !final(self)@.active_writer,
            !valid_name(name@) || !valid_name(kind@) ==> r is Err && final(self)@.catalog == old(self)@.catalog,
            r == Ok::<bool, DbError>(false) ==> final(self)@.catalog == old(self)@.catalog,
            r == Ok::<bool, DbError>(true) ==> final(self)@.catalog == with_extension(old(self)@.catalog, name@, abi_version, kind@),
            r is Err ==> final(self)@.catalog == old(self)@.catalog,
            r matches Ok(inserted) ==> (inserted <==> !has_extension(old(self)@.catalog.extensions, name@)),
            r == Ok::<bool, DbError>(false) ==> extension_registered_as(old(self)@.catalog.extensions, name@, abi_version, kind@),
            !old(self)@.active_writer && old(self)@.next_tx_id < u64::MAX && old(self).wal_in_sync() && old(self).data_file().modeled()
                && valid_name(name@) && valid_name(kind@)
                && (has_extension(old(self)@.catalog.extensions, name@)
                    ==> extension_registered_as(old(self)@.catalog.extensions, name@, abi_version, kind@))
                && (!has_extension(old(self)@.catalog.extensions, name@)
                    ==> catalog_fits_page(with_extension(old(self)@.catalog, name@, abi_version, kind@)))
                && old(self).wal_file().contents().len() + 4 * WAL_HEADER_SIZE + 2 * PAGE_SIZE <= usize::MAX
                ==> r is Ok,
    {
        let ghost w0 = self.wal_file().contents();
        proof {
            lemma_encode_layout(WalRecordView { lsn: w0.len() as u64, kind: WalKindView::BeginTx(self@.next_tx_id) });
        }
        let mut transaction = self.begin()?;
        let inserted = match transaction.register_extension(name, abi_version, kind) {
            Ok(inserted) => inserted,
            Err(error) => {
                transaction.abandon();
                return Err(error);
            },
        };
        proof {
            if transaction.manager.wal_in_sync() && transaction.manager.data_file().modeled() {
                lemma_register_commit_fits(&transaction, transaction.manager.wal_file().contents().len() as int);
            }
        }
        transaction.commit()?;
        Ok(inserted)
    }
}

} // verus!
