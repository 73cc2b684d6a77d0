//! Persistent catalog and heap-table storage.
//!
//! The catalog is stored in page 0 as one encoded record. Heap tables are
//! ordinary slotted pages whose page ids are listed by the relation's storage
//! object. The record layout is:
//!
//! ```text
//! magic "RDBC" | version u16 | next_relation_id u64 | next_page_id u64
//! relation count u32 | relations... | extension count u32 | extensions...
//! ```
//!
//! A record that ends right after the relations (written before extension
//! metadata existed) decodes with no extensions.

use vstd::prelude::*;
use crate::bytes::{le16_bytes, le32_bytes, le64_bytes, lemma_le16_bytes, lemma_le32_bytes,
    lemma_le64_bytes, push_u16, push_u32, push_u64};
use crate::codec::{p_u8, p_u16, p_u32, p_u64, p_string, e_string, string_encodable, DecodeCursor,
    str_eq, lemma_sub_split, lemma_p_u8_at, lemma_p_u16_at, lemma_p_u32_at, lemma_p_u64_at,
    lemma_p_string_at, push_string};
use crate::listcodec::{e_list, pr_list, prepend, lemma_e_list_push, lemma_prepend_step,
    lemma_pr_list_at};
use crate::types::{DbError, DbResult, PageId, RelationId, RowId, SlotId, user_error, corruption};
use crate::page::{Page, PageType, PAGE_SIZE, HEADER_SIZE, SLOT_SIZE, page_valid, header_ok, spec_header,
    raw_slot_count, raw_free_start, raw_free_end, slot_live, slot_record, slot_offset_of, slot_len_of,
    first_dead, insert_target, insert_post, read_record_result, slot_pos};
use crate::vfs::{VfsFile, Vfs, PageFile, open_page_file, write_at, page_read, lemma_page_read_after_write,
    lemma_write_at_frame, spec_page_offset};

verus! {

/// Number of the physical page reserved for catalog metadata.
pub const CATALOG_PAGE: u64 = 0;

/// "RDBC" read as a little-endian `u32`.
pub const CATALOG_MAGIC: u32 = 0x4342_4452;
pub const CATALOG_VERSION: u16 = 1;
pub const STORAGE_HEAP: u8 = 1;
pub const STORAGE_INDEX: u8 = 2;

/// Relation kind stored in the catalog.
#[derive(Clone, Copy, Debug, PartialEq, Eq, Structural)]
pub enum RelationKind {
    /// Ordinary heap table.
    Table,
    /// Index relation.
    Index,
    /// System catalog relation.
    System,
}

/// Byte code of a relation kind.
pub open spec fn kind_code(k: RelationKind) -> u8 {
    match k {
        RelationKind::Table => 1,
        RelationKind::Index => 2,
        RelationKind::System => 3,
    }
}

/// Relation kind with byte code `v`, if any.
pub open spec fn kind_of_code(v: u8) -> Option<RelationKind> {
    if v == 1 {
        Some(RelationKind::Table)
    } else if v == 2 {
        Some(RelationKind::Index)
    } else if v == 3 {
        Some(RelationKind::System)
    } else {
        None
    }
}

impl RelationKind {
    fn to_u8(&self) -> (v: u8)
        ensures
            v == kind_code(*self),
    {
        match self {
            RelationKind::Table => 1,
            RelationKind::Index => 2,
            RelationKind::System => 3,
        }
    }

    fn from_u8(value: u8) -> (r: DbResult<RelationKind>)
        ensures
            match kind_of_code(value) {
                Some(k) => r == Ok::<RelationKind, DbError>(k),
                None => r is Err && r->Err_0 is Corruption,
            },
    {
        match value {
            1 => Ok(RelationKind::Table),
            2 => Ok(RelationKind::Index),
            3 => Ok(RelationKind::System),
            _ => Err(corruption("unknown catalog relation kind")),
        }
    }
}

/// Column metadata stored by the catalog.
#[derive(Clone, Debug, PartialEq, Eq)]
pub struct ColumnDef {
    /// Column name.
    pub name: String,
    /// Storage-independent type name.
    pub sql_type: String,
}

pub struct ColumnView {
    pub name: Seq<char>,
    pub sql_type: Seq<char>,
}

impl View for ColumnDef {
    type V = ColumnView;

    open spec fn view(&self) -> ColumnView {
        ColumnView { name: self.name@, sql_type: self.sql_type@ }
    }
}

impl ColumnDef {
    /// Create a column definition.
    pub fn new(name: &str, sql_type: &str) -> (c: Self)
        ensures
            c@ == (ColumnView { name: name@, sql_type: sql_type@ }),
    {
        ColumnDef { name: name.to_owned(), sql_type: sql_type.to_owned() }
    }
}

/// Persisted extension metadata stored in the catalog page.
#[derive(Clone, Debug, PartialEq, Eq)]
pub struct ExtensionInfo {
    /// Extension name.
    pub name: String,
    /// ABI version accepted when the extension was installed.
    pub abi_version: u32,
    /// Loading kind, for example `static`.
    pub kind: String,
}

pub struct ExtensionView {
    pub name: Seq<char>,
    pub abi_version: u32,
    pub kind: Seq<char>,
}

impl View for ExtensionInfo {
    type V = ExtensionView;

    open spec fn view(&self) -> ExtensionView {
        ExtensionView { name: self.name@, abi_version: self.abi_version, kind: self.kind@ }
    }
}

impl ExtensionInfo {
    /// Create extension metadata.
    pub fn new(name: &str, abi_version: u32, kind: &str) -> (e: Self)
        ensures
            e@ == (ExtensionView { name: name@, abi_version, kind: kind@ }),
    {
        ExtensionInfo { name: name.to_owned(), abi_version, kind: kind.to_owned() }
    }
}

/// Page ids as plain numbers.
pub open spec fn page_ids_view(v: Seq<PageId>) -> Seq<u64> {
    v.map_values(|p: PageId| p.0)
}

/// Heap storage metadata for one relation.
#[derive(Clone, Debug, PartialEq, Eq)]
pub struct HeapStorage {
    pages: Vec<PageId>,
}

impl View for HeapStorage {
    type V = Seq<u64>;

    closed spec fn view(&self) -> Seq<u64> {
        page_ids_view(self.pages@)
    }
}

impl HeapStorage {
    /// Create heap storage metadata from page ids.
    pub fn new(pages: Vec<PageId>) -> (h: Self)
        ensures
            h@ == page_ids_view(pages@),
    {
        HeapStorage { pages }
    }

    /// Pages that currently belong to this heap relation.
    pub fn pages(&self) -> (r: &[PageId])
        ensures
            page_ids_view(r@) == self@,
    {
        self.pages.as_slice()
    }

    fn push_page(&mut self, page_id: PageId)
        ensures
            final(self)@ == old(self)@.push(page_id.0),
    {
        self.pages.push(page_id);
        assert(page_ids_view(self.pages@) =~= old(self)@.push(page_id.0));
    }
}

/// B+Tree index storage metadata for one index relation.
#[derive(Clone, Debug, PartialEq, Eq)]
pub struct IndexStorage {
    table_id: RelationId,
    column_name: String,
    root_page_id: PageId,
}

pub struct IndexView {
    pub table_id: u64,
    pub column_name: Seq<char>,
    pub root_page_id: u64,
}

impl View for IndexStorage {
    type V = IndexView;

    closed spec fn view(&self) -> IndexView {
        IndexView {
            table_id: self.table_id.0,
            column_name: self.column_name@,
            root_page_id: self.root_page_id.0,
        }
    }
}

impl IndexStorage {
    /// Create index storage metadata.
    pub fn new(table_id: RelationId, column_name: &str, root_page_id: PageId) -> (s: Self)
        ensures
            s@ == (IndexView {
                table_id: table_id.0,
                column_name: column_name@,
                root_page_id: root_page_id.0,
            }),
    {
        IndexStorage { table_id, column_name: column_name.to_owned(), root_page_id }
    }

    fn from_parts(table_id: RelationId, column_name: String, root_page_id: PageId) -> (s: Self)
        ensures
            s@ == (IndexView {
                table_id: table_id.0,
                column_name: column_name@,
                root_page_id: root_page_id.0,
            }),
    {
        IndexStorage { table_id, column_name, root_page_id }
    }

    /// Heap table indexed by this index relation.
    pub fn table_id(&self) -> (r: RelationId)
        ensures
            r.0 == self@.table_id,
    {
        self.table_id
    }

    /// Indexed column name.
    pub fn column_name(&self) -> (r: &str)
        ensures
            r@ == self@.column_name,
    {
        self.column_name.as_str()
    }

    /// Root page of the B+Tree.
    pub fn root_page_id(&self) -> (r: PageId)
        ensures
            r.0 == self@.root_page_id,
    {
        self.root_page_id
    }

    /// Update root page after a root split.
    pub fn set_root_page_id(&mut self, root_page_id: PageId)
        ensures
            final(self)@ == (IndexView { root_page_id: root_page_id.0, ..old(self)@ }),
    {
        self.root_page_id = root_page_id;
    }
}

/// Physical storage object referenced by a catalog relation.
#[derive(Clone, Debug, PartialEq, Eq)]
pub enum StorageObject {
    /// Heap table storage.
    Heap(HeapStorage),
    /// B+Tree index storage.
    BPlusTree(IndexStorage),
}

pub enum StorageView {
    Heap(Seq<u64>),
    BPlusTree(IndexView),
}

impl View for StorageObject {
    type V = StorageView;

    open spec fn view(&self) -> StorageView {
        match self {
            StorageObject::Heap(h) => StorageView::Heap(h@),
            StorageObject::BPlusTree(i) => StorageView::BPlusTree(i@),
        }
    }
}

/// Heap pages of a storage object; an index has none.
pub open spec fn storage_heap_pages(s: StorageView) -> Seq<u64> {
    match s {
        StorageView::Heap(pages) => pages,
        StorageView::BPlusTree(_) => Seq::empty(),
    }
}

impl StorageObject {
    /// Return heap pages when this storage object is a heap.
    pub fn heap_pages(&self) -> (r: &[PageId])
        ensures
            page_ids_view(r@) == storage_heap_pages(self@),
    {
        match self {
            StorageObject::Heap(storage) => storage.pages(),
            StorageObject::BPlusTree(_) => {
                let r: &[PageId] = &[];
                assert(page_ids_view(r@) =~= Seq::<u64>::empty());
                r
            },
        }
    }

    /// Return index storage when this storage object is a B+Tree.
    pub fn index_storage(&self) -> (r: Option<&IndexStorage>)
        ensures
            match self@ {
                StorageView::Heap(_) => r is None,
                StorageView::BPlusTree(i) => r matches Some(s) && s@ == i,
            },
    {
        match self {
            StorageObject::Heap(_) => None,
            StorageObject::BPlusTree(storage) => Some(storage),
        }
    }

    /// Mutably return index storage when this storage object is a B+Tree.
    pub fn index_storage_mut(&mut self) -> (r: Option<&mut IndexStorage>)
        ensures
            match old(self)@ {
                StorageView::Heap(_) => r is None && final(self)@ == old(self)@,
                StorageView::BPlusTree(i) => r matches Some(s) && s@ == i
                    && final(self)@ == StorageView::BPlusTree(final(s)@),
            },
    {
        match self {
            StorageObject::Heap(_) => None,
            StorageObject::BPlusTree(storage) => Some(storage),
        }
    }
}

/// Relation metadata.
#[derive(Clone, Debug, PartialEq, Eq)]
pub struct RelationInfo {
    /// Stable relation id.
    pub id: RelationId,
    /// Relation name.
    pub name: String,
    /// Relation kind.
    pub kind: RelationKind,
    /// Physical storage object for this relation.
    pub storage: StorageObject,
    /// Column metadata for the relation.
    pub columns: Vec<ColumnDef>,
}

pub struct RelationView {
    pub id: u64,
    pub name: Seq<char>,
    pub kind: RelationKind,
    pub storage: StorageView,
    pub columns: Seq<ColumnView>,
}

/// Column views of a column list.
pub open spec fn columns_view(v: Seq<ColumnDef>) -> Seq<ColumnView> {
    v.map_values(|c: ColumnDef| c@)
}

impl View for RelationInfo {
    type V = RelationView;

    open spec fn view(&self) -> RelationView {
        RelationView {
            id: self.id.0,
            name: self.name@,
            kind: self.kind,
            storage: self.storage@,
            columns: columns_view(self.columns@),
        }
    }
}

impl RelationInfo {
    /// Return heap pages for table scans and inserts.
    pub fn heap_pages(&self) -> (r: &[PageId])
        ensures
            page_ids_view(r@) == storage_heap_pages(self@.storage),
    {
        self.storage.heap_pages()
    }

    /// Return true when this relation is an ordinary heap table.
    pub fn is_heap_table(&self) -> (r: bool)
        ensures
            r == (self.kind == RelationKind::Table),
    {
        self.kind == RelationKind::Table
    }

    /// Return B+Tree index metadata when this relation is an index.
    pub fn index_storage(&self) -> (r: Option<&IndexStorage>)
        ensures
            match self@.storage {
                StorageView::Heap(_) => r is None,
                StorageView::BPlusTree(i) => r matches Some(s) && s@ == i,
            },
    {
        self.storage.index_storage()
    }
}

/// Relation views of a relation list.
pub open spec fn relations_view(v: Seq<RelationInfo>) -> Seq<RelationView> {
    v.map_values(|r: RelationInfo| r@)
}

/// Extension views of an extension list.
pub open spec fn extensions_view(v: Seq<ExtensionInfo>) -> Seq<ExtensionView> {
    v.map_values(|e: ExtensionInfo| e@)
}

/// In-memory representation of the persistent catalog page.
#[derive(Clone, Debug, PartialEq, Eq)]
pub struct Catalog {
    next_relation_id: u64,
    next_page_id: u64,
    relations: Vec<RelationInfo>,
    extensions: Vec<ExtensionInfo>,
}

pub struct CatalogView {
    pub next_relation_id: u64,
    pub next_page_id: u64,
    pub relations: Seq<RelationView>,
    pub extensions: Seq<ExtensionView>,
}

impl View for Catalog {
    type V = CatalogView;

    closed spec fn view(&self) -> CatalogView {
        CatalogView {
            next_relation_id: self.next_relation_id,
            next_page_id: self.next_page_id,
            relations: relations_view(self.relations@),
            extensions: extensions_view(self.extensions@),
        }
    }
}

// ---------------------------------------------------------------------------
// The record format.

pub open spec fn e_column(c: ColumnView) -> Seq<u8> {
    e_string(c.name) + e_string(c.sql_type)
}

pub open spec fn enc_column() -> spec_fn(ColumnView) -> Seq<u8> {
    |c: ColumnView| e_column(c)
}

pub open spec fn enc_page() -> spec_fn(u64) -> Seq<u8> {
    |p: u64| le64_bytes(p)
}

pub open spec fn e_storage(s: StorageView) -> Seq<u8> {
    match s {
        StorageView::Heap(pages) => seq![STORAGE_HEAP] + le32_bytes(pages.len() as u32) + e_list(
            pages,
            enc_page(),
        ),
        StorageView::BPlusTree(i) => seq![STORAGE_INDEX] + le64_bytes(i.table_id) + le64_bytes(
            i.root_page_id,
        ) + e_string(i.column_name),
    }
}

pub open spec fn e_relation(r: RelationView) -> Seq<u8> {
    le64_bytes(r.id) + seq![kind_code(r.kind)] + e_storage(r.storage) + e_string(r.name)
        + le16_bytes(r.columns.len() as u16) + e_list(r.columns, enc_column())
}

pub open spec fn enc_relation() -> spec_fn(RelationView) -> Seq<u8> {
    |r: RelationView| e_relation(r)
}

pub open spec fn e_extension(x: ExtensionView) -> Seq<u8> {
    e_string(x.name) + le32_bytes(x.abi_version) + e_string(x.kind)
}

pub open spec fn enc_extension() -> spec_fn(ExtensionView) -> Seq<u8> {
    |x: ExtensionView| e_extension(x)
}

/// The catalog record.
pub open spec fn e_catalog(c: CatalogView) -> Seq<u8> {
    le32_bytes(CATALOG_MAGIC) + le16_bytes(CATALOG_VERSION) + le64_bytes(c.next_relation_id)
        + le64_bytes(c.next_page_id) + le32_bytes(c.relations.len() as u32) + e_list(
        c.relations,
        enc_relation(),
    ) + le32_bytes(c.extensions.len() as u32) + e_list(c.extensions, enc_extension())
}

pub open spec fn column_encodable(c: ColumnView) -> bool {
    string_encodable(c.name) && string_encodable(c.sql_type)
}

pub open spec fn storage_encodable(s: StorageView) -> bool {
    match s {
        StorageView::Heap(pages) => pages.len() <= u32::MAX,
        StorageView::BPlusTree(i) => string_encodable(i.column_name),
    }
}

pub open spec fn relation_encodable(r: RelationView) -> bool {
    &&& storage_encodable(r.storage)
    &&& string_encodable(r.name)
    &&& r.columns.len() <= u16::MAX
    &&& forall|j: int| 0 <= j < r.columns.len() ==> #[trigger] column_encodable(r.columns[j])
}

pub open spec fn extension_encodable(x: ExtensionView) -> bool {
    string_encodable(x.name) && string_encodable(x.kind)
}

/// Every count and string of the catalog fits its length field.
pub open spec fn catalog_encodable(c: CatalogView) -> bool {
    &&& c.relations.len() <= u32::MAX
    &&& c.extensions.len() <= u32::MAX
    &&& forall|i: int| 0 <= i < c.relations.len() ==> #[trigger] relation_encodable(c.relations[i])
    &&& forall|i: int| 0 <= i < c.extensions.len() ==> #[trigger] extension_encodable(c.extensions[i])
}

pub open spec fn storage_heap_ok(s: StorageView) -> bool {
    match s {
        StorageView::Heap(pages) => pages.len() > 0,
        StorageView::BPlusTree(_) => true,
    }
}

/// Every heap relation lists at least one page (the decoder insists on it).
pub open spec fn heaps_nonempty(c: CatalogView) -> bool {
    forall|i: int|
        0 <= i < c.relations.len() ==> storage_heap_ok((#[trigger] c.relations[i]).storage)
}

// ---------------------------------------------------------------------------
// Parsing model.

pub open spec fn pf_page() -> spec_fn(Seq<u8>, int) -> Option<(u64, int)> {
    |b: Seq<u8>, pos: int| p_u64(b, pos)
}

pub open spec fn pr_column(b: Seq<u8>, pos: int) -> Option<(ColumnView, int)> {
    match p_string(b, pos) {
        None => None,
        Some((name, p)) => match p_string(b, p) {
            None => None,
            Some((t, q)) => Some((ColumnView { name, sql_type: t }, q)),
        },
    }
}

pub open spec fn pf_column() -> spec_fn(Seq<u8>, int) -> Option<(ColumnView, int)> {
    |b: Seq<u8>, pos: int| pr_column(b, pos)
}

pub open spec fn pr_storage(b: Seq<u8>, pos: int) -> Option<(StorageView, int)> {
    match p_u8(b, pos) {
        None => None,
        Some((k, p)) => if k == STORAGE_HEAP {
            match p_u32(b, p) {
                None => None,
                Some((n, q)) => match pr_list(b, q, n as nat, pf_page()) {
                    None => None,
                    Some((pages, r)) => if pages.len() == 0 {
                        None
                    } else {
                        Some((StorageView::Heap(pages), r))
                    },
                },
            }
        } else if k == STORAGE_INDEX {
            match p_u64(b, p) {
                None => None,
                Some((t, q)) => match p_u64(b, q) {
                    None => None,
                    Some((root, r)) => match p_string(b, r) {
                        None => None,
                        Some((col, s)) => Some(
                            (
                                StorageView::BPlusTree(
                                    IndexView { table_id: t, column_name: col, root_page_id: root },
                                ),
                                s,
                            ),
                        ),
                    },
                },
            }
        } else {
            None
        },
    }
}

pub open spec fn pr_relation(b: Seq<u8>, pos: int) -> Option<(RelationView, int)> {
    match p_u64(b, pos) {
        None => None,
        Some((id, p1)) => match p_u8(b, p1) {
            None => None,
            Some((k, p2)) => match kind_of_code(k) {
                None => None,
                Some(kind) => match pr_storage(b, p2) {
                    None => None,
                    Some((storage, p3)) => match p_string(b, p3) {
                        None => None,
                        Some((name, p4)) => match p_u16(b, p4) {
                            None => None,
                            Some((n, p5)) => match pr_list(b, p5, n as nat, pf_column()) {
                                None => None,
                                Some((columns, p6)) => Some(
                                    (RelationView { id, name, kind, storage, columns }, p6),
                                ),
                            },
                        },
                    },
                },
            },
        },
    }
}

pub open spec fn pf_relation() -> spec_fn(Seq<u8>, int) -> Option<(RelationView, int)> {
    |b: Seq<u8>, pos: int| pr_relation(b, pos)
}

pub open spec fn pr_extension(b: Seq<u8>, pos: int) -> Option<(ExtensionView, int)> {
    match p_string(b, pos) {
        None => None,
        Some((name, p)) => match p_u32(b, p) {
            None => None,
            Some((abi, q)) => match p_string(b, q) {
                None => None,
                Some((kind, r)) => Some((ExtensionView { name, abi_version: abi, kind }, r)),
            },
        },
    }
}

pub open spec fn pf_extension() -> spec_fn(Seq<u8>, int) -> Option<(ExtensionView, int)> {
    |b: Seq<u8>, pos: int| pr_extension(b, pos)
}

/// The extension section that follows the relations at `pos`.
pub open spec fn pr_extension_section(b: Seq<u8>, pos: int) -> Option<Seq<ExtensionView>> {
    if pos == b.len() {
        Some(Seq::empty())
    } else {
        match p_u32(b, pos) {
            None => None,
            Some((n, p)) => match pr_list(b, p, n as nat, pf_extension()) {
                None => None,
                Some((exts, q)) => if q == b.len() {
                    Some(exts)
                } else {
                    None
                },
            },
        }
    }
}

/// The catalog that `decode_catalog` produces from `b`, if any.
pub open spec fn pr_catalog(b: Seq<u8>) -> Option<CatalogView> {
    match p_u32(b, 0) {
        None => None,
        Some((magic, p1)) => if magic != CATALOG_MAGIC {
            None
        } else {
            match p_u16(b, p1) {
                None => None,
                Some((version, p2)) => if version != CATALOG_VERSION {
                    None
                } else {
                    match p_u64(b, p2) {
                        None => None,
                        Some((next_rel, p3)) => match p_u64(b, p3) {
                            None => None,
                            Some((next_page, p4)) => match p_u32(b, p4) {
                                None => None,
                                Some((n, p5)) => match pr_list(b, p5, n as nat, pf_relation()) {
                                    None => None,
                                    Some((rels, p6)) => match pr_extension_section(b, p6) {
                                        None => None,
                                        Some(exts) => Some(
                                            CatalogView {
                                                next_relation_id: next_rel,
                                                next_page_id: next_page,
                                                relations: rels,
                                                extensions: exts,
                                            },
                                        ),
                                    },
                                },
                            },
                        },
                    }
                },
            }
        },
    }
}

// ---------------------------------------------------------------------------
// Decoding.

pub(crate) fn read_pages(cur: &mut DecodeCursor, n: u32) -> (r: DbResult<Vec<PageId>>)
    requires
        old(cur).wf(),
    ensures
        final(cur).wf(),
        final(cur).bytes@ == old(cur).bytes@,
        match pr_list(old(cur).bytes@, old(cur).offset as int, n as nat, pf_page()) {
            Some((ps, p)) => r matches Ok(v) && page_ids_view(v@) == ps && final(cur).offset == p,
            None => r is Err && r->Err_0 is Corruption,
        },
{
    let ghost b = cur.bytes@;
    let ghost o = cur.offset as int;
    let mut pages: Vec<PageId> = Vec::new();
    let mut i: u32 = 0;
    while i < n
        invariant
            cur.wf(),
            cur.bytes@ == b,
            b == old(cur).bytes@,
            o == old(cur).offset,
            i <= n,
            pr_list(b, o, n as nat, pf_page()) == prepend(
                page_ids_view(pages@),
                pr_list(b, cur.offset as int, (n - i) as nat, pf_page()),
            ),
        decreases n - i,
    {
        let ghost before = cur.offset as int;
        let ghost pre = page_ids_view(pages@);
        let v = cur.read_u64()?;
        proof {
            lemma_prepend_step(pre, b, before, (n - i) as nat, pf_page(), v, cur.offset as int);
        }
        pages.push(PageId(v));
        assert(page_ids_view(pages@) =~= pre.push(v));
        i = i + 1;
    }
    assert(page_ids_view(pages@) + Seq::<u64>::empty() =~= page_ids_view(pages@));
    Ok(pages)
}

fn read_column(cur: &mut DecodeCursor) -> (r: DbResult<ColumnDef>)
    requires
        old(cur).wf(),
    ensures
        final(cur).wf(),
        final(cur).bytes@ == old(cur).bytes@,
        match pr_column(old(cur).bytes@, old(cur).offset as int) {
            Some((c, p)) => r matches Ok(x) && x@ == c && final(cur).offset == p,
            None => r is Err && r->Err_0 is Corruption,
        },
{
    let name = cur.read_string()?;
    let sql_type = cur.read_string()?;
    Ok(ColumnDef { name, sql_type })
}

fn read_columns(cur: &mut DecodeCursor, n: u16) -> (r: DbResult<Vec<ColumnDef>>)
    requires
        old(cur).wf(),
    ensures
        final(cur).wf(),
        final(cur).bytes@ == old(cur).bytes@,
        match pr_list(old(cur).bytes@, old(cur).offset as int, n as nat, pf_column()) {
            Some((cs, p)) => r matches Ok(v) && columns_view(v@) == cs && final(cur).offset == p,
            None => r is Err && r->Err_0 is Corruption,
        },
{
    let ghost b = cur.bytes@;
    let ghost o = cur.offset as int;
    let mut columns: Vec<ColumnDef> = Vec::new();
    let mut i: u16 = 0;
    while i < n
        invariant
            cur.wf(),
            cur.bytes@ == b,
            b == old(cur).bytes@,
            o == old(cur).offset,
            i <= n,
            pr_list(b, o, n as nat, pf_column()) == prepend(
                columns_view(columns@),
                pr_list(b, cur.offset as int, (n - i) as nat, pf_column()),
            ),
        decreases n - i,
    {
        let ghost before = cur.offset as int;
        let ghost pre = columns_view(columns@);
        let c = read_column(cur)?;
        proof {
            lemma_prepend_step(pre, b, before, (n - i) as nat, pf_column(), c@, cur.offset as int);
        }
        columns.push(c);
        assert(columns_view(columns@) =~= pre.push(c@));
        i = i + 1;
    }
    assert(columns_view(columns@) + Seq::<ColumnView>::empty() =~= columns_view(columns@));
    Ok(columns)
}

fn read_storage(cur: &mut DecodeCursor) -> (r: DbResult<StorageObject>)
    requires
        old(cur).wf(),
    ensures
        final(cur).wf(),
        final(cur).bytes@ == old(cur).bytes@,
        match pr_storage(old(cur).bytes@, old(cur).offset as int) {
            Some((s, p)) => r matches Ok(x) && x@ == s && final(cur).offset == p,
            None => r is Err && r->Err_0 is Corruption,
        },
{
    let storage_kind = cur.read_u8()?;
    if storage_kind == STORAGE_HEAP {
        let page_count = cur.read_u32()?;
        let pages = read_pages(cur, page_count)?;
        if pages.len() == 0 {
            return Err(corruption("heap storage has no pages"));
        }
        Ok(StorageObject::Heap(HeapStorage::new(pages)))
    } else if storage_kind == STORAGE_INDEX {
        let table_id = RelationId(cur.read_u64()?);
        let root_page_id = PageId(cur.read_u64()?);
        let column_name = cur.read_string()?;
        Ok(StorageObject::BPlusTree(IndexStorage::from_parts(table_id, column_name, root_page_id)))
    } else {
        Err(corruption("unknown catalog storage object kind"))
    }
}

fn read_relation(cur: &mut DecodeCursor) -> (r: DbResult<RelationInfo>)
    requires
        old(cur).wf(),
    ensures
        final(cur).wf(),
        final(cur).bytes@ == old(cur).bytes@,
        match pr_relation(old(cur).bytes@, old(cur).offset as int) {
            Some((rel, p)) => r matches Ok(x) && x@ == rel && final(cur).offset == p,
            None => r is Err && r->Err_0 is Corruption,
        },
{
    let id = RelationId(cur.read_u64()?);
    let kind = RelationKind::from_u8(cur.read_u8()?)?;
    let storage = read_storage(cur)?;
    let name = cur.read_string()?;
    let column_count = cur.read_u16()?;
    let columns = read_columns(cur, column_count)?;
    Ok(RelationInfo { id, name, kind, storage, columns })
}

fn read_relations(cur: &mut DecodeCursor, n: u32) -> (r: DbResult<Vec<RelationInfo>>)
    requires
        old(cur).wf(),
    ensures
        final(cur).wf(),
        final(cur).bytes@ == old(cur).bytes@,
        match pr_list(old(cur).bytes@, old(cur).offset as int, n as nat, pf_relation()) {
            Some((rs, p)) => r matches Ok(v) && relations_view(v@) == rs && final(cur).offset == p,
            None => r is Err && r->Err_0 is Corruption,
        },
{
    let ghost b = cur.bytes@;
    let ghost o = cur.offset as int;
    let mut relations: Vec<RelationInfo> = Vec::new();
    let mut i: u32 = 0;
    while i < n
        invariant
            cur.wf(),
            cur.bytes@ == b,
            b == old(cur).bytes@,
            o == old(cur).offset,
            i <= n,
            pr_list(b, o, n as nat, pf_relation()) == prepend(
                relations_view(relations@),
                pr_list(b, cur.offset as int, (n - i) as nat, pf_relation()),
            ),
        decreases n - i,
    {
        let ghost before = cur.offset as int;
        let ghost pre = relations_view(relations@);
        let rel = read_relation(cur)?;
        proof {
            lemma_prepend_step(pre, b, before, (n - i) as nat, pf_relation(), rel@, cur.offset as int);
        }
        relations.push(rel);
        assert(relations_view(relations@) =~= pre.push(rel@));
        i = i + 1;
    }
    assert(relations_view(relations@) + Seq::<RelationView>::empty() =~= relations_view(relations@));
    Ok(relations)
}

fn read_extension(cur: &mut DecodeCursor) -> (r: DbResult<ExtensionInfo>)
    requires
        old(cur).wf(),
    ensures
        final(cur).wf(),
        final(cur).bytes@ == old(cur).bytes@,
        match pr_extension(old(cur).bytes@, old(cur).offset as int) {
            Some((x, p)) => r matches Ok(e) && e@ == x && final(cur).offset == p,
            None => r is Err && r->Err_0 is Corruption,
        },
{
    let name = cur.read_string()?;
    let abi_version = cur.read_u32()?;
    let kind = cur.read_string()?;
    Ok(ExtensionInfo { name, abi_version, kind })
}

fn read_extensions(cur: &mut DecodeCursor, n: u32) -> (r: DbResult<Vec<ExtensionInfo>>)
    requires
        old(cur).wf(),
    ensures
        final(cur).wf(),
        final(cur).bytes@ == old(cur).bytes@,
        match pr_list(old(cur).bytes@, old(cur).offset as int, n as nat, pf_extension()) {
            Some((xs, p)) => r matches Ok(v) && extensions_view(v@) == xs && final(cur).offset == p,
            None => r is Err && r->Err_0 is Corruption,
        },
{
    let ghost b = cur.bytes@;
    let ghost o = cur.offset as int;
    let mut extensions: Vec<ExtensionInfo> = Vec::new();
    let mut i: u32 = 0;
    while i < n
        invariant
            cur.wf(),
            cur.bytes@ == b,
            b == old(cur).bytes@,
            o == old(cur).offset,
            i <= n,
            pr_list(b, o, n as nat, pf_extension()) == prepend(
                extensions_view(extensions@),
                pr_list(b, cur.offset as int, (n - i) as nat, pf_extension()),
            ),
        decreases n - i,
    {
        let ghost before = cur.offset as int;
        let ghost pre = extensions_view(extensions@);
        let x = read_extension(cur)?;
        proof {
            lemma_prepend_step(pre, b, before, (n - i) as nat, pf_extension(), x@, cur.offset as int);
        }
        extensions.push(x);
        assert(extensions_view(extensions@) =~= pre.push(x@));
        i = i + 1;
    }
    assert(extensions_view(extensions@) + Seq::<ExtensionView>::empty() =~= extensions_view(extensions@));
    Ok(extensions)
}

/// Decode a catalog record.
pub fn decode_catalog(bytes: &[u8]) -> (r: DbResult<Catalog>)
    ensures
        match pr_catalog(bytes@) {
            Some(c) => r matches Ok(x) && x@ == c,
            None => r is Err && r->Err_0 is Corruption,
        },
{
    let mut cursor = DecodeCursor::new(bytes);
    let magic = cursor.read_u32()?;
    if magic != CATALOG_MAGIC {
        return Err(corruption("invalid catalog magic"));
    }
    let version = cursor.read_u16()?;
    if version != CATALOG_VERSION {
        return Err(corruption("unsupported catalog version"));
    }
    let next_relation_id = cursor.read_u64()?;
    let next_page_id = cursor.read_u64()?;
    let relation_count = cursor.read_u32()?;
    let relations = read_relations(&mut cursor, relation_count)?;
    let extensions = if cursor.is_finished() {
        let none: Vec<ExtensionInfo> = Vec::new();
        assert(extensions_view(none@) =~= Seq::<ExtensionView>::empty());
        none
    } else {
        let extension_count = cursor.read_u32()?;
        read_extensions(&mut cursor, extension_count)?
    };
    cursor.finish()?;
    let c = Catalog { next_relation_id, next_page_id, relations, extensions };
    Ok(c)
}

// ---------------------------------------------------------------------------
// Encoding.

fn write_storage(out: &mut Vec<u8>, storage: &StorageObject) -> (r: DbResult<()>)
    ensures
        r is Ok <==> storage_encodable(storage@),
        r is Ok ==> final(out)@ == old(out)@ + e_storage(storage@),
        r is Err ==> r->Err_0 is User,
{
    match storage {
        StorageObject::Heap(heap) => {
            let pages = heap.pages.as_slice();
            let ghost view = page_ids_view(pages@);
            out.push(STORAGE_HEAP);
            if pages.len() > 0xFFFF_FFFF {
                return Err(user_error("heap page count does not fit into u32"));
            }
            push_u32(out, pages.len() as u32);
            let ghost start = out@;
            let mut i: usize = 0;
            while i < pages.len()
                invariant
                    i <= pages@.len(),
                    view == page_ids_view(pages@),
                    out@ == start + e_list(view.subrange(0, i as int), enc_page()),
                decreases pages@.len() - i,
            {
                proof {
                    lemma_e_list_push(view.subrange(0, i as int), view[i as int], enc_page());
                    assert(view.subrange(0, i as int).push(view[i as int]) =~= view.subrange(0, i + 1));
                }
                push_u64(out, pages[i].0);
                i = i + 1;
            }
            assert(view.subrange(0, pages@.len() as int) =~= view);
            assert(final(out)@ =~= old(out)@ + e_storage(storage@));
            Ok(())
        },
        StorageObject::BPlusTree(index) => {
            out.push(STORAGE_INDEX);
            push_u64(out, index.table_id.0);
            push_u64(out, index.root_page_id.0);
            let ghost mid = out@;
            push_string(out, index.column_name.as_str())?;
            assert(final(out)@ =~= old(out)@ + e_storage(storage@));
            Ok(())
        },
    }
}

fn write_columns(out: &mut Vec<u8>, columns: &Vec<ColumnDef>) -> (r: DbResult<()>)
    ensures
        r is Ok <==> forall|j: int| 0 <= j < columns@.len() ==> #[trigger] column_encodable(columns@[j]@),
        r is Ok ==> final(out)@ == old(out)@ + e_list(columns_view(columns@), enc_column()),
        r is Err ==> r->Err_0 is User,
{
    let ghost view = columns_view(columns@);
    let mut i: usize = 0;
    while i < columns.len()
        invariant
            i <= columns@.len(),
            view == columns_view(columns@),
            out@ == old(out)@ + e_list(view.subrange(0, i as int), enc_column()),
            forall|j: int| 0 <= j < i ==> #[trigger] column_encodable(columns@[j]@),
        decreases columns@.len() - i,
    {
        let column = &columns[i];
        let ghost before = out@;
        let r1 = push_string(out, column.name.as_str());
        if r1.is_err() {
            assert(!column_encodable(columns@[i as int]@));
            return r1;
        }
        let r2 = push_string(out, column.sql_type.as_str());
        if r2.is_err() {
            assert(!column_encodable(columns@[i as int]@));
            return r2;
        }
        proof {
            lemma_e_list_push(view.subrange(0, i as int), view[i as int], enc_column());
            assert(view.subrange(0, i as int).push(view[i as int]) =~= view.subrange(0, i + 1));
            assert(out@ =~= before + e_column(view[i as int]));
        }
        i = i + 1;
    }
    assert(view.subrange(0, columns@.len() as int) =~= view);
    Ok(())
}

fn write_relation(out: &mut Vec<u8>, relation: &RelationInfo) -> (r: DbResult<()>)
    ensures
        r is Ok <==> relation_encodable(relation@),
        r is Ok ==> final(out)@ == old(out)@ + e_relation(relation@),
        r is Err ==> r->Err_0 is User,
{
    push_u64(out, relation.id.0);
    out.push(relation.kind.to_u8());
    write_storage(out, &relation.storage)?;
    push_string(out, relation.name.as_str())?;
    if relation.columns.len() > 0xFFFF {
        return Err(user_error("column count does not fit into u16"));
    }
    push_u16(out, relation.columns.len() as u16);
    let r = write_columns(out, &relation.columns);
    proof {
        if r is Err {
            let j = choose|j: int| 0 <= j < relation.columns@.len() && !#[trigger] column_encodable(relation.columns@[j]@);
            assert(relation@.columns[j] == relation.columns@[j]@);
        } else {
            assert forall|j: int| 0 <= j < relation@.columns.len() implies #[trigger] column_encodable(relation@.columns[j]) by {
                assert(relation@.columns[j] == relation.columns@[j]@);
            }
        }
    }
    r?;
    assert(final(out)@ =~= old(out)@ + e_relation(relation@));
    Ok(())
}

fn write_extension(out: &mut Vec<u8>, extension: &ExtensionInfo) -> (r: DbResult<()>)
    ensures
        r is Ok <==> extension_encodable(extension@),
        r is Ok ==> final(out)@ == old(out)@ + e_extension(extension@),
        r is Err ==> r->Err_0 is User,
{
    push_string(out, extension.name.as_str())?;
    push_u32(out, extension.abi_version);
    push_string(out, extension.kind.as_str())?;
    assert(final(out)@ =~= old(out)@ + e_extension(extension@));
    Ok(())
}

/// Encode a catalog record.
pub fn encode_catalog(catalog: &Catalog) -> (r: DbResult<Vec<u8>>)
    ensures
        r is Ok <==> catalog_encodable(catalog@),
        r matches Ok(v) ==> v@ == e_catalog(catalog@),
        r is Err ==> r->Err_0 is User,
{
    let ghost c = catalog@;
    let mut out: Vec<u8> = Vec::new();
    push_u32(&mut out, CATALOG_MAGIC);
    push_u16(&mut out, CATALOG_VERSION);
    push_u64(&mut out, catalog.next_relation_id);
    push_u64(&mut out, catalog.next_page_id);
    if catalog.relations.len() > 0xFFFF_FFFF {
        return Err(user_error("relation count does not fit into u32"));
    }
    push_u32(&mut out, catalog.relations.len() as u32);
    let ghost start = out@;
    let mut i: usize = 0;
    while i < catalog.relations.len()
        invariant
            i <= catalog.relations@.len(),
            c == catalog@,
            c.relations == relations_view(catalog.relations@),
            out@ == start + e_list(c.relations.subrange(0, i as int), enc_relation()),
            forall|j: int| 0 <= j < i ==> #[trigger] relation_encodable(c.relations[j]),
        decreases catalog.relations@.len() - i,
    {
        let ghost before = out@;
        write_relation(&mut out, &catalog.relations[i])?;
        proof {
            lemma_e_list_push(c.relations.subrange(0, i as int), c.relations[i as int], enc_relation());
            assert(c.relations.subrange(0, i as int).push(c.relations[i as int]) =~= c.relations.subrange(0, i + 1));
        }
        i = i + 1;
    }
    assert(c.relations.subrange(0, c.relations.len() as int) =~= c.relations);
    if catalog.extensions.len() > 0xFFFF_FFFF {
        return Err(user_error("extension count does not fit into u32"));
    }
    push_u32(&mut out, catalog.extensions.len() as u32);
    let ghost start2 = out@;
    let mut k: usize = 0;
    while k < catalog.extensions.len()
        invariant
            k <= catalog.extensions@.len(),
            c == catalog@,
            c.extensions == extensions_view(catalog.extensions@),
            out@ == start2 + e_list(c.extensions.subrange(0, k as int), enc_extension()),
            forall|j: int| 0 <= j < k ==> #[trigger] extension_encodable(c.extensions[j]),
        decreases catalog.extensions@.len() - k,
    {
        let w = write_extension(&mut out, &catalog.extensions[k]);
        if w.is_err() {
            assert(!extension_encodable(c.extensions[k as int]));
            return Err(user_error("extension metadata does not fit the catalog record"));
        }
        proof {
            lemma_e_list_push(c.extensions.subrange(0, k as int), c.extensions[k as int], enc_extension());
            assert(c.extensions.subrange(0, k as int).push(c.extensions[k as int]) =~= c.extensions.subrange(0, k + 1));
        }
        k = k + 1;
    }
    assert(c.extensions.subrange(0, c.extensions.len() as int) =~= c.extensions);
    assert(out@ =~= e_catalog(c));
    Ok(out)
}

// ---------------------------------------------------------------------------
// Round trip: decoding an encoded catalog gives it back.

proof fn lemma_pr_column_at(b: Seq<u8>, p: int, c: ColumnView)
    requires
        column_encodable(c),
        0 <= p,
        p + e_column(c).len() <= b.len(),
        b.subrange(p, p + e_column(c).len()) == e_column(c),
    ensures
        pr_column(b, p) == Some((c, p + e_column(c).len())),
{
    lemma_sub_split(b, p, e_string(c.name), e_string(c.sql_type));
    lemma_p_string_at(b, p, c.name);
    lemma_p_string_at(b, p + e_string(c.name).len(), c.sql_type);
}

proof fn lemma_pr_columns_at(b: Seq<u8>, p: int, cs: Seq<ColumnView>)
    requires
        forall|j: int| 0 <= j < cs.len() ==> #[trigger] column_encodable(cs[j]),
        0 <= p,
        p + e_list(cs, enc_column()).len() <= b.len(),
        b.subrange(p, p + e_list(cs, enc_column()).len()) == e_list(cs, enc_column()),
    ensures
        pr_list(b, p, cs.len(), pf_column()) == Some((cs, p + e_list(cs, enc_column()).len())),
{
    assert forall|i: int, q: int|
        #![trigger cs[i], pf_column()(b, q)]
        0 <= i < cs.len() && 0 <= q && q + enc_column()(cs[i]).len() <= b.len() && b.subrange(
            q,
            q + enc_column()(cs[i]).len(),
        ) == enc_column()(cs[i]) implies pf_column()(b, q) == Some(
        (cs[i], q + enc_column()(cs[i]).len()),
    ) by {
        assert(column_encodable(cs[i]));
        lemma_pr_column_at(b, q, cs[i]);
    }
    lemma_pr_list_at(b, p, cs, pf_column(), enc_column());
}

#[verifier::spinoff_prover]
proof fn lemma_pr_storage_at(b: Seq<u8>, p: int, st: StorageView)
    requires
        storage_encodable(st),
        storage_heap_ok(st),
        0 <= p,
        p + e_storage(st).len() <= b.len(),
        b.subrange(p, p + e_storage(st).len()) == e_storage(st),
    ensures
        pr_storage(b, p) == Some((st, p + e_storage(st).len())),
{
    match st {
        StorageView::Heap(pages) => {
            lemma_le32_bytes(pages.len() as u32);
            let head = seq![STORAGE_HEAP] + le32_bytes(pages.len() as u32);
            lemma_sub_split(b, p, head, e_list(pages, enc_page()));
            lemma_sub_split(b, p, seq![STORAGE_HEAP], le32_bytes(pages.len() as u32));
            lemma_p_u8_at(b, p, STORAGE_HEAP);
            lemma_p_u32_at(b, p + 1, pages.len() as u32);
            assert forall|i: int, q: int|
                #![trigger pages[i], pf_page()(b, q)]
                0 <= i < pages.len() && 0 <= q && q + enc_page()(pages[i]).len() <= b.len()
                    && b.subrange(q, q + enc_page()(pages[i]).len()) == enc_page()(pages[i])
                    implies pf_page()(b, q) == Some((pages[i], q + enc_page()(pages[i]).len())) by {
                lemma_le64_bytes(pages[i]);
                lemma_p_u64_at(b, q, pages[i]);
            }
            lemma_pr_list_at(b, p + 5, pages, pf_page(), enc_page());
        },
        StorageView::BPlusTree(i) => {
            lemma_le64_bytes(i.table_id);
            lemma_le64_bytes(i.root_page_id);
            let h1 = seq![STORAGE_INDEX] + le64_bytes(i.table_id);
            let h2 = h1 + le64_bytes(i.root_page_id);
            lemma_sub_split(b, p, h2, e_string(i.column_name));
            lemma_sub_split(b, p, h1, le64_bytes(i.root_page_id));
            lemma_sub_split(b, p, seq![STORAGE_INDEX], le64_bytes(i.table_id));
            lemma_p_u8_at(b, p, STORAGE_INDEX);
            lemma_p_u64_at(b, p + 1, i.table_id);
            lemma_p_u64_at(b, p + 9, i.root_page_id);
            lemma_p_string_at(b, p + 17, i.column_name);
        },
    }
}

#[verifier::spinoff_prover]
proof fn lemma_pr_relation_at(b: Seq<u8>, p: int, r: RelationView)
    requires
        relation_encodable(r),
        storage_heap_ok(r.storage),
        0 <= p,
        p + e_relation(r).len() <= b.len(),
        b.subrange(p, p + e_relation(r).len()) == e_relation(r),
    ensures
        pr_relation(b, p) == Some((r, p + e_relation(r).len())),
{
    lemma_le64_bytes(r.id);
    lemma_le16_bytes(r.columns.len() as u16);
    let x1 = le64_bytes(r.id) + seq![kind_code(r.kind)];
    let x2 = x1 + e_storage(r.storage);
    let x3 = x2 + e_string(r.name);
    let x4 = x3 + le16_bytes(r.columns.len() as u16);
    lemma_sub_split(b, p, x4, e_list(r.columns, enc_column()));
    lemma_sub_split(b, p, x3, le16_bytes(r.columns.len() as u16));
    lemma_sub_split(b, p, x2, e_string(r.name));
    lemma_sub_split(b, p, x1, e_storage(r.storage));
    lemma_sub_split(b, p, le64_bytes(r.id), seq![kind_code(r.kind)]);
    lemma_p_u64_at(b, p, r.id);
    lemma_p_u8_at(b, p + 8, kind_code(r.kind));
    lemma_pr_storage_at(b, p + 9, r.storage);
    lemma_p_string_at(b, p + x2.len(), r.name);
    lemma_p_u16_at(b, p + x3.len(), r.columns.len() as u16);
    lemma_pr_columns_at(b, p + x4.len(), r.columns);
}

proof fn lemma_pr_extension_at(b: Seq<u8>, p: int, x: ExtensionView)
    requires
        extension_encodable(x),
        0 <= p,
        p + e_extension(x).len() <= b.len(),
        b.subrange(p, p + e_extension(x).len()) == e_extension(x),
    ensures
        pr_extension(b, p) == Some((x, p + e_extension(x).len())),
{
    lemma_le32_bytes(x.abi_version);
    let h = e_string(x.name) + le32_bytes(x.abi_version);
    lemma_sub_split(b, p, h, e_string(x.kind));
    lemma_sub_split(b, p, e_string(x.name), le32_bytes(x.abi_version));
    lemma_p_string_at(b, p, x.name);
    lemma_p_u32_at(b, p + e_string(x.name).len(), x.abi_version);
    lemma_p_string_at(b, p + h.len(), x.kind);
}

/// Decoding the record of an encodable catalog gives the same catalog back.
/// (A heap relation without pages is the one thing the decoder refuses.)
#[verifier::spinoff_prover]
pub proof fn lemma_catalog_roundtrip(c: CatalogView)
    requires
        catalog_encodable(c),
        heaps_nonempty(c),
    ensures
        pr_catalog(e_catalog(c)) == Some(c),
{
    let b = e_catalog(c);
    let a1 = le32_bytes(CATALOG_MAGIC);
    let a2 = a1 + le16_bytes(CATALOG_VERSION);
    let a3 = a2 + le64_bytes(c.next_relation_id);
    let a4 = a3 + le64_bytes(c.next_page_id);
    let a5 = a4 + le32_bytes(c.relations.len() as u32);
    let a6 = a5 + e_list(c.relations, enc_relation());
    let a7 = a6 + le32_bytes(c.extensions.len() as u32);
    let exts = e_list(c.extensions, enc_extension());
    lemma_le32_bytes(CATALOG_MAGIC);
    lemma_le16_bytes(CATALOG_VERSION);
    lemma_le64_bytes(c.next_relation_id);
    lemma_le64_bytes(c.next_page_id);
    lemma_le32_bytes(c.relations.len() as u32);
    lemma_le32_bytes(c.extensions.len() as u32);
    assert(b.subrange(0, b.len() as int) =~= b);
    lemma_sub_split(b, 0, a7, exts);
    lemma_sub_split(b, 0, a6, le32_bytes(c.extensions.len() as u32));
    lemma_sub_split(b, 0, a5, e_list(c.relations, enc_relation()));
    lemma_sub_split(b, 0, a4, le32_bytes(c.relations.len() as u32));
    lemma_sub_split(b, 0, a3, le64_bytes(c.next_page_id));
    lemma_sub_split(b, 0, a2, le64_bytes(c.next_relation_id));
    lemma_sub_split(b, 0, a1, le16_bytes(CATALOG_VERSION));
    lemma_p_u32_at(b, 0, CATALOG_MAGIC);
    lemma_p_u16_at(b, 4, CATALOG_VERSION);
    lemma_p_u64_at(b, 6, c.next_relation_id);
    lemma_p_u64_at(b, 14, c.next_page_id);
    lemma_p_u32_at(b, 22, c.relations.len() as u32);
    assert forall|i: int, q: int|
        #![trigger c.relations[i], pf_relation()(b, q)]
        0 <= i < c.relations.len() && 0 <= q && q + enc_relation()(c.relations[i]).len() <= b.len()
            && b.subrange(q, q + enc_relation()(c.relations[i]).len()) == enc_relation()(
            c.relations[i],
        ) implies pf_relation()(b, q) == Some(
        (c.relations[i], q + enc_relation()(c.relations[i]).len()),
    ) by {
        assert(relation_encodable(c.relations[i]));
        assert(storage_heap_ok(c.relations[i].storage));
        lemma_pr_relation_at(b, q, c.relations[i]);
    }
    lemma_pr_list_at(b, 26, c.relations, pf_relation(), enc_relation());
    lemma_p_u32_at(b, a6.len() as int, c.extensions.len() as u32);
    assert forall|i: int, q: int|
        #![trigger c.extensions[i], pf_extension()(b, q)]
        0 <= i < c.extensions.len() && 0 <= q && q + enc_extension()(c.extensions[i]).len()
            <= b.len() && b.subrange(q, q + enc_extension()(c.extensions[i]).len())
            == enc_extension()(c.extensions[i]) implies pf_extension()(b, q) == Some(
        (c.extensions[i], q + enc_extension()(c.extensions[i]).len()),
    ) by {
        assert(extension_encodable(c.extensions[i]));
        lemma_pr_extension_at(b, q, c.extensions[i]);
    }
    lemma_pr_list_at(b, a7.len() as int, c.extensions, pf_extension(), enc_extension());
}

/// The catalog record up to and including its relations.
pub open spec fn e_catalog_head(c: CatalogView) -> Seq<u8> {
    le32_bytes(CATALOG_MAGIC) + le16_bytes(CATALOG_VERSION) + le64_bytes(c.next_relation_id)
        + le64_bytes(c.next_page_id) + le32_bytes(c.relations.len() as u32) + e_list(c.relations, enc_relation())
}

/// Bytes that begin with a catalog's record up to its relations decode to
/// that catalog's header and relations, with whatever extension section
/// follows.
proof fn lemma_catalog_head_parse(c: CatalogView, b: Seq<u8>)
    requires
        catalog_encodable(c),
        heaps_nonempty(c),
        e_catalog_head(c).len() <= b.len(),
        b.subrange(0, e_catalog_head(c).len() as int) == e_catalog_head(c),
    ensures
        pr_catalog(b) == match pr_extension_section(b, e_catalog_head(c).len() as int) {
            Some(exts) => Some(CatalogView { extensions: exts, ..c }),
            None => None,
        },
{
    let a1 = le32_bytes(CATALOG_MAGIC);
    let a2 = a1 + le16_bytes(CATALOG_VERSION);
    let a3 = a2 + le64_bytes(c.next_relation_id);
    let a4 = a3 + le64_bytes(c.next_page_id);
    let a5 = a4 + le32_bytes(c.relations.len() as u32);
    lemma_le32_bytes(CATALOG_MAGIC);
    lemma_le16_bytes(CATALOG_VERSION);
    lemma_le64_bytes(c.next_relation_id);
    lemma_le64_bytes(c.next_page_id);
    lemma_le32_bytes(c.relations.len() as u32);
    lemma_sub_split(b, 0, a5, e_list(c.relations, enc_relation()));
    lemma_sub_split(b, 0, a4, le32_bytes(c.relations.len() as u32));
    lemma_sub_split(b, 0, a3, le64_bytes(c.next_page_id));
    lemma_sub_split(b, 0, a2, le64_bytes(c.next_relation_id));
    lemma_sub_split(b, 0, a1, le16_bytes(CATALOG_VERSION));
    lemma_p_u32_at(b, 0, CATALOG_MAGIC);
    lemma_p_u16_at(b, 4, CATALOG_VERSION);
    lemma_p_u64_at(b, 6, c.next_relation_id);
    lemma_p_u64_at(b, 14, c.next_page_id);
    lemma_p_u32_at(b, 22, c.relations.len() as u32);
    assert forall|i: int, q: int|
        #![trigger c.relations[i], pf_relation()(b, q)]
        0 <= i < c.relations.len() && 0 <= q && q + enc_relation()(c.relations[i]).len() <= b.len()
            && b.subrange(q, q + enc_relation()(c.relations[i]).len()) == enc_relation()(c.relations[i])
            implies pf_relation()(b, q) == Some((c.relations[i], q + enc_relation()(c.relations[i]).len())) by {
        assert(relation_encodable(c.relations[i]));
        assert(storage_heap_ok(c.relations[i].storage));
        lemma_pr_relation_at(b, q, c.relations[i]);
    }
    lemma_pr_list_at(b, 26, c.relations, pf_relation(), enc_relation());
}

/// Law (records without an extension section): the record of a catalog
/// without extensions, cut before its extension count, as records written
/// before extensions existed are, still decodes to that catalog.
pub proof fn law_catalog_without_extension_section(c: CatalogView)
    requires
        catalog_encodable(c),
        heaps_nonempty(c),
        c.extensions.len() == 0,
    ensures
        pr_catalog(e_catalog(c).subrange(0, e_catalog(c).len() - 4)) == Some(c),
{
    let head = e_catalog_head(c);
    lemma_le32_bytes(c.extensions.len() as u32);
    assert(e_list(c.extensions, enc_extension()) =~= Seq::<u8>::empty());
    assert(e_catalog(c) == head + le32_bytes(c.extensions.len() as u32) + e_list(c.extensions, enc_extension()));
    assert(e_catalog(c).subrange(0, e_catalog(c).len() - 4) =~= head);
    assert(head.subrange(0, head.len() as int) =~= head);
    lemma_catalog_head_parse(c, head);
    assert(c.extensions =~= Seq::<ExtensionView>::empty());
}

/// Law (trailing bytes): a catalog record followed by any further bytes is
/// refused.
pub proof fn law_catalog_trailing_refused(c: CatalogView, extra: Seq<u8>)
    requires
        catalog_encodable(c),
        heaps_nonempty(c),
        extra.len() > 0,
    ensures
        pr_catalog(e_catalog(c) + extra) is None,
{
    let head = e_catalog_head(c);
    let e = e_catalog(c);
    let b = e + extra;
    let cnt = le32_bytes(c.extensions.len() as u32);
    let exts = e_list(c.extensions, enc_extension());
    lemma_le32_bytes(c.extensions.len() as u32);
    assert(e == head + cnt + exts);
    assert(b.subrange(0, head.len() as int) =~= head);
    lemma_catalog_head_parse(c, b);
    let h = head.len() as int;
    assert(b.subrange(h, h + 4) =~= cnt);
    lemma_p_u32_at(b, head.len() as int, c.extensions.len() as u32);
    assert(b.subrange(h + 4, h + 4 + exts.len()) =~= exts);
    assert forall|i: int, q: int|
        #![trigger c.extensions[i], pf_extension()(b, q)]
        0 <= i < c.extensions.len() && 0 <= q && q + enc_extension()(c.extensions[i]).len() <= b.len()
            && b.subrange(q, q + enc_extension()(c.extensions[i]).len()) == enc_extension()(c.extensions[i])
            implies pf_extension()(b, q) == Some((c.extensions[i], q + enc_extension()(c.extensions[i]).len())) by {
        assert(extension_encodable(c.extensions[i]));
        lemma_pr_extension_at(b, q, c.extensions[i]);
    }
    lemma_pr_list_at(b, h + 4, c.extensions, pf_extension(), enc_extension());
}

// ---------------------------------------------------------------------------
// Catalog operations.

/// A name the catalog accepts: not empty, and short enough for its `u16` length.
pub open spec fn valid_name(s: Seq<char>) -> bool {
    s.len() > 0 && string_encodable(s)
}

pub open spec fn column_ok(c: ColumnView) -> bool {
    valid_name(c.name) && valid_name(c.sql_type)
}

/// Column lists the catalog accepts.
pub open spec fn columns_valid(cs: Seq<ColumnView>) -> bool {
    &&& cs.len() <= u16::MAX
    &&& forall|j: int| 0 <= j < cs.len() ==> #[trigger] column_ok(cs[j])
    &&& forall|j: int, k: int| 0 <= j < k < cs.len() ==> #[trigger] cs[j].name != #[trigger] cs[k].name
}

pub open spec fn has_id(rels: Seq<RelationView>, id: u64) -> bool {
    exists|i: int| 0 <= i < rels.len() && #[trigger] rels[i].id == id
}

/// `i` is the first relation with id `id`.
pub open spec fn first_with_id(rels: Seq<RelationView>, id: u64, i: int) -> bool {
    &&& 0 <= i < rels.len()
    &&& rels[i].id == id
    &&& forall|j: int| 0 <= j < i ==> #[trigger] rels[j].id != id
}

pub open spec fn has_name(rels: Seq<RelationView>, name: Seq<char>) -> bool {
    exists|i: int| 0 <= i < rels.len() && #[trigger] rels[i].name == name
}

pub open spec fn first_with_name(rels: Seq<RelationView>, name: Seq<char>, i: int) -> bool {
    &&& 0 <= i < rels.len()
    &&& rels[i].name == name
    &&& forall|j: int| 0 <= j < i ==> #[trigger] rels[j].name != name
}

pub open spec fn has_extension(exts: Seq<ExtensionView>, name: Seq<char>) -> bool {
    exists|i: int| 0 <= i < exts.len() && #[trigger] exts[i].name == name
}

pub open spec fn first_extension(exts: Seq<ExtensionView>, name: Seq<char>, i: int) -> bool {
    &&& 0 <= i < exts.len()
    &&& exts[i].name == name
    &&& forall|j: int| 0 <= j < i ==> #[trigger] exts[j].name != name
}

/// An index relation over heap table `table`.
pub open spec fn is_index_on(r: RelationView, table: u64) -> bool {
    &&& r.kind == RelationKind::Index
    &&& r.storage matches StorageView::BPlusTree(i) && i.table_id == table
}

/// An index relation over column `column` of heap table `table`.
pub open spec fn is_index_on_column(r: RelationView, table: u64, column: Seq<char>) -> bool {
    &&& is_index_on(r, table)
    &&& r.storage matches StorageView::BPlusTree(i) && i.column_name == column
}

/// The table has a column named `column`.
pub open spec fn has_column(r: RelationView, column: Seq<char>) -> bool {
    exists|j: int| 0 <= j < r.columns.len() && #[trigger] r.columns[j].name == column
}

/// The empty catalog fits its page.
pub proof fn lemma_empty_catalog_fits()
    ensures
        catalog_fits_page(empty_catalog()),
{
    let c = empty_catalog();
    assert(e_list(c.relations, enc_relation()) =~= Seq::<u8>::empty());
    assert(e_list(c.extensions, enc_extension()) =~= Seq::<u8>::empty());
}

pub open spec fn empty_catalog() -> CatalogView {
    CatalogView {
        next_relation_id: 1,
        next_page_id: 1,
        relations: Seq::empty(),
        extensions: Seq::empty(),
    }
}

fn validate_name(name: &str) -> (r: DbResult<()>)
    ensures
        r is Ok <==> valid_name(name@),
        r is Err ==> r->Err_0 is User,
{
    let bytes = name.as_bytes();
    if bytes.len() == 0 {
        return Err(user_error("name must not be empty"));
    }
    if bytes.len() > 65535 {
        return Err(user_error("name is too long"));
    }
    assert(name@.len() > 0) by {
        if name@.len() == 0 {
            assert(name@ =~= Seq::<char>::empty());
            assert(vstd::utf8::encode_utf8(name@) =~= Seq::<u8>::empty());
        }
    }
    Ok(())
}

fn validate_columns(columns: &Vec<ColumnDef>) -> (r: DbResult<()>)
    ensures
        r is Ok <==> columns_valid(columns_view(columns@)),
        r is Err ==> r->Err_0 is User,
{
    let ghost cs = columns_view(columns@);
    if columns.len() > 65535 {
        return Err(user_error("too many columns"));
    }
    let mut i: usize = 0;
    while i < columns.len()
        invariant
            i <= columns@.len(),
            cs == columns_view(columns@),
            cs.len() <= u16::MAX,
            forall|j: int| 0 <= j < i ==> #[trigger] column_ok(cs[j]),
            forall|j: int, k: int| 0 <= j < k < i ==> #[trigger] cs[j].name != #[trigger] cs[k].name,
        decreases columns@.len() - i,
    {
        let column = &columns[i];
        let r1 = validate_name(column.name.as_str());
        if r1.is_err() {
            assert(!column_ok(cs[i as int]));
            return r1;
        }
        let r2 = validate_name(column.sql_type.as_str());
        if r2.is_err() {
            assert(!column_ok(cs[i as int]));
            return r2;
        }
        let mut k: usize = 0;
        while k < i
            invariant
                k <= i,
                i < columns@.len(),
                cs == columns_view(columns@),
                forall|j: int| 0 <= j < k ==> #[trigger] cs[j].name != cs[i as int].name,
            decreases i - k,
        {
            if str_eq(columns[k].name.as_str(), columns[i].name.as_str()) {
                assert(cs[k as int].name == cs[i as int].name);
                return Err(user_error("duplicate column name"));
            }
            k = k + 1;
        }
        i = i + 1;
    }
    Ok(())
}

impl Catalog {
    /// Create an empty catalog with page 0 reserved for the catalog itself.
    pub fn empty() -> (c: Self)
        ensures
            c@ == empty_catalog(),
    {
        let c = Catalog {
            next_relation_id: 1,
            next_page_id: 1,
            relations: Vec::new(),
            extensions: Vec::new(),
        };
        assert(c@.relations =~= Seq::<RelationView>::empty());
        assert(c@.extensions =~= Seq::<ExtensionView>::empty());
        c
    }

    /// Return all relation records in catalog order.
    pub fn relations(&self) -> (r: &[RelationInfo])
        ensures
            relations_view(r@) == self@.relations,
    {
        self.relations.as_slice()
    }

    /// Return installed extension metadata records in catalog order.
    pub fn extensions(&self) -> (r: &[ExtensionInfo])
        ensures
            extensions_view(r@) == self@.extensions,
    {
        self.extensions.as_slice()
    }

    fn extension_position(&self, name: &str) -> (r: Option<usize>)
        ensures
            match r {
                None => !has_extension(self@.extensions, name@),
                Some(i) => first_extension(self@.extensions, name@, i as int),
            },
    {
        let mut i: usize = 0;
        while i < self.extensions.len()
            invariant
                i <= self.extensions@.len(),
                forall|j: int| 0 <= j < i ==> #[trigger] self@.extensions[j].name != name@,
            decreases self.extensions@.len() - i,
        {
            if str_eq(self.extensions[i].name.as_str(), name) {
                return Some(i);
            }
            i = i + 1;
        }
        None
    }

    /// Find installed extension metadata by name.
    pub fn extension_by_name(&self, name: &str) -> (r: Option<&ExtensionInfo>)
        ensures
            r is None <==> !has_extension(self@.extensions, name@),
            r matches Some(x) ==> exists|i: int| #[trigger] first_extension(self@.extensions, name@, i)
                && x@ == self@.extensions[i],
    {
        match self.extension_position(name) {
            Some(i) => Some(&self.extensions[i]),
            None => None,
        }
    }

    /// Register extension metadata. Re-registering the same extension is
    /// idempotent; registering a name again with other metadata is refused.
    pub fn register_extension_metadata(&mut self, name: &str, abi_version: u32, kind: &str) -> (r: DbResult<bool>)
        ensures
            !valid_name(name@) || !valid_name(kind@) ==> r is Err && r->Err_0 is User && final(self)@ == old(self)@,
            valid_name(name@) && valid_name(kind@) && has_extension(old(self)@.extensions, name@) ==> {
                &&& final(self)@ == old(self)@
                &&& exists|i: int| #[trigger] first_extension(old(self)@.extensions, name@, i) && if old(self)@.extensions[i].abi_version == abi_version && old(self)@.extensions[i].kind == kind@ {
                    r == Ok::<bool, DbError>(false)
                } else {
                    r is Err && r->Err_0 is User
                }
            },
            valid_name(name@) && valid_name(kind@) && !has_extension(old(self)@.extensions, name@) ==> {
                &&& r == Ok::<bool, DbError>(true)
                &&& final(self)@ == CatalogView {
                    extensions: old(self)@.extensions.push(ExtensionView { name: name@, abi_version, kind: kind@ }),
                    ..old(self)@
                }
            },
    {
        validate_name(name)?;
        validate_name(kind)?;
        match self.extension_position(name) {
            Some(i) => {
                let existing = &self.extensions[i];
                if existing.abi_version == abi_version && str_eq(existing.kind.as_str(), kind) {
                    return Ok(false);
                }
                Err(user_error("extension already registered with different metadata"))
            },
            None => {
                let ghost o = self@;
                self.extensions.push(ExtensionInfo::new(name, abi_version, kind));
                assert(self@.extensions =~= o.extensions.push(ExtensionView { name: name@, abi_version, kind: kind@ }));
                Ok(true)
            },
        }
    }

    fn position_by_id(&self, relation_id: RelationId) -> (r: Option<usize>)
        ensures
            match r {
                None => !has_id(self@.relations, relation_id.0),
                Some(i) => first_with_id(self@.relations, relation_id.0, i as int),
            },
    {
        let mut i: usize = 0;
        while i < self.relations.len()
            invariant
                i <= self.relations@.len(),
                forall|j: int| 0 <= j < i ==> #[trigger] self@.relations[j].id != relation_id.0,
            decreases self.relations@.len() - i,
        {
            if self.relations[i].id == relation_id {
                return Some(i);
            }
            i = i + 1;
        }
        None
    }

    fn position_by_name(&self, name: &str) -> (r: Option<usize>)
        ensures
            match r {
                None => !has_name(self@.relations, name@),
                Some(i) => first_with_name(self@.relations, name@, i as int),
            },
    {
        let mut i: usize = 0;
        while i < self.relations.len()
            invariant
                i <= self.relations@.len(),
                forall|j: int| 0 <= j < i ==> #[trigger] self@.relations[j].name != name@,
            decreases self.relations@.len() - i,
        {
            if str_eq(self.relations[i].name.as_str(), name) {
                return Some(i);
            }
            i = i + 1;
        }
        None
    }

    /// Find a relation by id.
    pub fn relation_by_id(&self, relation_id: RelationId) -> (r: Option<&RelationInfo>)
        ensures
            r is None <==> !has_id(self@.relations, relation_id.0),
            r matches Some(x) ==> exists|i: int| #[trigger] first_with_id(self@.relations, relation_id.0, i)
                && x@ == self@.relations[i],
    {
        match self.position_by_id(relation_id) {
            Some(i) => Some(&self.relations[i]),
            None => None,
        }
    }

    /// Find a relation by name.
    pub fn relation_by_name(&self, name: &str) -> (r: Option<&RelationInfo>)
        ensures
            r is None <==> !has_name(self@.relations, name@),
            r matches Some(x) ==> exists|i: int| #[trigger] first_with_name(self@.relations, name@, i)
                && x@ == self@.relations[i],
    {
        match self.position_by_name(name) {
            Some(i) => Some(&self.relations[i]),
            None => None,
        }
    }
}

impl Catalog {
    fn allocate_relation_id(&mut self) -> (r: DbResult<RelationId>)
        ensures
            old(self)@.next_relation_id == u64::MAX ==> r is Err && r->Err_0 is User && final(self)@ == old(self)@,
            old(self)@.next_relation_id < u64::MAX ==> r == Ok::<RelationId, DbError>(RelationId(old(self)@.next_relation_id))
                && final(self)@ == (CatalogView { next_relation_id: (old(self)@.next_relation_id + 1) as u64, ..old(self)@ }),
    {
        let relation_id = self.next_relation_id;
        if relation_id == u64::MAX {
            return Err(user_error("relation id overflow"));
        }
        self.next_relation_id = relation_id + 1;
        Ok(RelationId(relation_id))
    }

    /// The next page id to hand out.
    pub fn next_page_id(&self) -> (r: u64)
        ensures
            r == self@.next_page_id,
    {
        self.next_page_id
    }

    /// Move the next page id forward to `next`, once the ids below it were
    /// handed out elsewhere.
    pub fn advance_next_page_id(&mut self, next: u64)
        requires
            next >= old(self)@.next_page_id,
        ensures
            final(self)@ == (CatalogView { next_page_id: next, ..old(self)@ }),
    {
        self.next_page_id = next;
    }

    /// Allocate a fresh page id from catalog metadata.
    pub fn allocate_page_id(&mut self) -> (r: DbResult<PageId>)
        ensures
            old(self)@.next_page_id == u64::MAX ==> r is Err && r->Err_0 is User && final(self)@ == old(self)@,
            old(self)@.next_page_id < u64::MAX ==> r == Ok::<PageId, DbError>(PageId(old(self)@.next_page_id))
                && final(self)@ == (CatalogView { next_page_id: (old(self)@.next_page_id + 1) as u64, ..old(self)@ }),
    {
        let page_id = self.next_page_id;
        if page_id == u64::MAX {
            return Err(user_error("page id overflow"));
        }
        self.next_page_id = page_id + 1;
        Ok(PageId(page_id))
    }

    /// Add heap-table metadata and allocate its first heap page.
    pub fn create_table_metadata(&mut self, name: &str, columns: Vec<ColumnDef>) -> (r: DbResult<(RelationId, PageId)>)
        ensures
            ({
                let o = old(self)@;
                let n = final(self)@;
                if !valid_name(name@) || !columns_valid(columns_view(columns@)) || has_name(o.relations, name@) {
                    r is Err && r->Err_0 is User && n == o
                } else if o.next_relation_id == u64::MAX {
                    r is Err && r->Err_0 is User && n == o
                } else if o.next_page_id == u64::MAX {
                    r is Err && r->Err_0 is User
                        && n == CatalogView { next_relation_id: (o.next_relation_id + 1) as u64, ..o }
                } else {
                    &&& r == Ok::<(RelationId, PageId), DbError>((RelationId(o.next_relation_id), PageId(o.next_page_id)))
                    &&& n == with_new_table(o, name@, columns_view(columns@))
                }
            }),
    {
        validate_name(name)?;
        validate_columns(&columns)?;
        if self.position_by_name(name).is_some() {
            return Err(user_error("relation already exists"));
        }
        let relation_id = self.allocate_relation_id()?;
        let page_id = self.allocate_page_id()?;
        let ghost o = self@;
        let mut pages: Vec<PageId> = Vec::new();
        pages.push(page_id);
        let info = RelationInfo {
            id: relation_id,
            name: name.to_owned(),
            kind: RelationKind::Table,
            storage: StorageObject::Heap(HeapStorage::new(pages)),
            columns,
        };
        assert(page_ids_view(pages@) =~= seq![page_id.0]);
        self.relations.push(info);
        assert(self@.relations =~= o.relations.push(info@));
        Ok((relation_id, page_id))
    }

    /// Append a heap page to an existing heap-table storage object.
    pub fn append_heap_page(&mut self, relation_id: RelationId, page_id: PageId) -> (r: DbResult<()>)
        ensures
            ({
                let o = old(self)@;
                let n = final(self)@;
                if !has_id(o.relations, relation_id.0) {
                    r is Err && r->Err_0 is User && n == o
                } else {
                    exists|i: int| #[trigger] first_with_id(o.relations, relation_id.0, i) && {
                        let rel = o.relations[i];
                        if rel.kind != RelationKind::Table {
                            r is Err && r->Err_0 is User && n == o
                        } else {
                            match rel.storage {
                                StorageView::Heap(pages) => r is Ok && n == CatalogView {
                                    relations: o.relations.update(i, RelationView {
                                        storage: StorageView::Heap(pages.push(page_id.0)),
                                        ..rel
                                    }),
                                    ..o
                                },
                                StorageView::BPlusTree(_) => r is Err && r->Err_0 is InternalInvariant && n == o,
                            }
                        }
                    }
                }
            }),
    {
        let i = match self.position_by_id(relation_id) {
            Some(i) => i,
            None => return Err(user_error("unknown relation id")),
        };
        if self.relations[i].kind != RelationKind::Table {
            return Err(user_error("relation is not a heap table"));
        }
        if let StorageObject::BPlusTree(_) = &self.relations[i].storage {
            return Err(DbError::InternalInvariant("table relation without heap storage"));
        }
        let ghost o = self@;
        let relation = &mut self.relations[i];
        if let StorageObject::Heap(heap) = &mut relation.storage {
            heap.push_page(page_id);
        }
        proof {
            let rel = o.relations[i as int];
            assert(self@.relations =~= o.relations.update(i as int, RelationView {
                storage: StorageView::Heap(storage_heap_pages(rel.storage).push(page_id.0)),
                ..rel
            }));
        }
        Ok(())
    }

    fn has_index_on_column(&self, table_id: RelationId, column_name: &str) -> (r: bool)
        ensures
            r == exists|j: int| 0 <= j < self@.relations.len()
                && #[trigger] is_index_on_column(self@.relations[j], table_id.0, column_name@),
    {
        let mut i: usize = 0;
        while i < self.relations.len()
            invariant
                i <= self.relations@.len(),
                forall|j: int| 0 <= j < i ==> !#[trigger] is_index_on_column(self@.relations[j], table_id.0, column_name@),
            decreases self.relations@.len() - i,
        {
            let relation = &self.relations[i];
            if relation.kind == RelationKind::Index {
                if let StorageObject::BPlusTree(index) = &relation.storage {
                    if index.table_id == table_id && str_eq(index.column_name.as_str(), column_name) {
                        assert(is_index_on_column(self@.relations[i as int], table_id.0, column_name@));
                        return true;
                    }
                }
            }
            i = i + 1;
        }
        false
    }

    /// Add B+Tree index metadata and allocate its initial root page.
    pub fn create_index_metadata(&mut self, name: &str, table_id: RelationId, column_name: &str) -> (r: DbResult<(RelationId, PageId)>)
        ensures
            r matches Ok((id, root)) ==> root.0 == old(self)@.next_page_id && final(self)@.next_page_id == old(self)@.next_page_id + 1
                && final(self)@.relations.len() == old(self)@.relations.len() + 1
                && final(self)@.relations.subrange(0, old(self)@.relations.len() as int) == old(self)@.relations,
            ({
                let o = old(self)@;
                let n = final(self)@;
                if !valid_name(name@) || !valid_name(column_name@) || has_name(o.relations, name@)
                    || !has_id(o.relations, table_id.0) {
                    r is Err && r->Err_0 is User && n == o
                } else {
                    exists|t: int| #[trigger] first_with_id(o.relations, table_id.0, t) && {
                        let table = o.relations[t];
                        if table.kind != RelationKind::Table || !has_column(table, column_name@)
                            || (exists|j: int| 0 <= j < o.relations.len()
                                && #[trigger] is_index_on_column(o.relations[j], table_id.0, column_name@)) {
                            r is Err && r->Err_0 is User && n == o
                        } else if o.next_relation_id == u64::MAX {
                            r is Err && r->Err_0 is User && n == o
                        } else if o.next_page_id == u64::MAX {
                            r is Err && r->Err_0 is User
                                && n == CatalogView { next_relation_id: (o.next_relation_id + 1) as u64, ..o }
                        } else {
                            &&& r == Ok::<(RelationId, PageId), DbError>((RelationId(o.next_relation_id), PageId(o.next_page_id)))
                            &&& n == CatalogView {
                                next_relation_id: (o.next_relation_id + 1) as u64,
                                next_page_id: (o.next_page_id + 1) as u64,
                                relations: o.relations.push(RelationView {
                                    id: o.next_relation_id,
                                    name: name@,
                                    kind: RelationKind::Index,
                                    storage: StorageView::BPlusTree(IndexView {
                                        table_id: table_id.0,
                                        column_name: column_name@,
                                        root_page_id: o.next_page_id,
                                    }),
                                    columns: seq![ColumnView { name: column_name@, sql_type: "INDEX_KEY"@ }],
                                }),
                                extensions: o.extensions,
                            }
                        }
                    }
                }
            }),
    {
        validate_name(name)?;
        validate_name(column_name)?;
        if self.position_by_name(name).is_some() {
            return Err(user_error("relation already exists"));
        }
        let t = match self.position_by_id(table_id) {
            Some(t) => t,
            None => return Err(user_error("unknown table relation id")),
        };
        if !self.relations[t].is_heap_table() {
            return Err(user_error("indexed relation is not a heap table"));
        }
        let mut found = false;
        let mut k: usize = 0;
        while k < self.relations[t].columns.len()
            invariant
                t < self.relations@.len(),
                k <= self.relations@[t as int].columns@.len(),
                found == exists|j: int| 0 <= j < k && #[trigger] self@.relations[t as int].columns[j].name == column_name@,
            decreases self.relations@[t as int].columns@.len() - k,
        {
            if str_eq(self.relations[t].columns[k].name.as_str(), column_name) {
                found = true;
                assert(self@.relations[t as int].columns[k as int].name == column_name@);
            }
            k = k + 1;
        }
        if !found {
            return Err(user_error("unknown indexed column"));
        }
        if self.has_index_on_column(table_id, column_name) {
            return Err(user_error("index already exists on relation column"));
        }
        let relation_id = self.allocate_relation_id()?;
        let root_page_id = self.allocate_page_id()?;
        let ghost o = self@;
        let mut columns: Vec<ColumnDef> = Vec::new();
        columns.push(ColumnDef::new(column_name, "INDEX_KEY"));
        let info = RelationInfo {
            id: relation_id,
            name: name.to_owned(),
            kind: RelationKind::Index,
            storage: StorageObject::BPlusTree(IndexStorage::new(table_id, column_name, root_page_id)),
            columns,
        };
        assert(columns_view(columns@) =~= seq![ColumnView { name: column_name@, sql_type: "INDEX_KEY"@ }]);
        self.relations.push(info);
        assert(self@.relations =~= o.relations.push(info@));
        Ok((relation_id, root_page_id))
    }

    /// Return indexes that belong to a heap table, in catalog order.
    pub fn indexes_on_table(&self, table_id: RelationId) -> (r: Vec<&RelationInfo>)
        ensures
            r@.map_values(|x: &RelationInfo| x@) == self@.relations.filter(|rel: RelationView| is_index_on(rel, table_id.0)),
            forall|k: int| 0 <= k < r@.len() ==> is_index_on(#[trigger] r@[k]@, table_id.0),
    {
        let ghost pred = |rel: RelationView| is_index_on(rel, table_id.0);
        let mut out: Vec<&RelationInfo> = Vec::new();
        let mut i: usize = 0;
        while i < self.relations.len()
            invariant
                i <= self.relations@.len(),
                pred == (|rel: RelationView| is_index_on(rel, table_id.0)),
                out@.map_values(|x: &RelationInfo| x@) == self@.relations.subrange(0, i as int).filter(pred),
            decreases self.relations@.len() - i,
        {
            let relation = &self.relations[i];
            let ghost before = out@.map_values(|x: &RelationInfo| x@);
            proof {
                self@.relations.subrange(0, i as int).lemma_filter_push(self@.relations[i as int], pred);
                assert(self@.relations.subrange(0, i as int).push(self@.relations[i as int]) =~= self@.relations.subrange(0, i + 1));
            }
            let mut is_index = false;
            if relation.kind == RelationKind::Index {
                if let StorageObject::BPlusTree(index) = &relation.storage {
                    is_index = index.table_id == table_id;
                }
            }
            assert(is_index == pred(self@.relations[i as int]));
            if is_index {
                out.push(relation);
                assert(out@.map_values(|x: &RelationInfo| x@) =~= before.push(relation@));
            }
            i = i + 1;
        }
        assert(self@.relations.subrange(0, self@.relations.len() as int) =~= self@.relations);
        assert forall|k: int| 0 <= k < out@.len() implies is_index_on(#[trigger] out@[k]@, table_id.0) by {
            self@.relations.lemma_filter_pred(pred, k);
            assert(out@.map_values(|x: &RelationInfo| x@)[k] == out@[k]@);
        }
        out
    }

    /// Update an index root page after the B+Tree root splits.
    pub fn set_index_root_page(&mut self, index_relation_id: RelationId, root_page_id: PageId) -> (r: DbResult<()>)
        ensures
            ({
                let o = old(self)@;
                let n = final(self)@;
                if !has_id(o.relations, index_relation_id.0) {
                    r is Err && r->Err_0 is User && n == o
                } else {
                    exists|i: int| #[trigger] first_with_id(o.relations, index_relation_id.0, i) && {
                        let rel = o.relations[i];
                        if rel.kind != RelationKind::Index {
                            r is Err && r->Err_0 is User && n == o
                        } else {
                            match rel.storage {
                                StorageView::BPlusTree(ix) => r is Ok && n == CatalogView {
                                    relations: o.relations.update(i, RelationView {
                                        storage: StorageView::BPlusTree(IndexView { root_page_id: root_page_id.0, ..ix }),
                                        ..rel
                                    }),
                                    ..o
                                },
                                StorageView::Heap(_) => r is Err && r->Err_0 is InternalInvariant && n == o,
                            }
                        }
                    }
                }
            }),
    {
        let i = match self.position_by_id(index_relation_id) {
            Some(i) => i,
            None => return Err(user_error("unknown index relation id")),
        };
        if self.relations[i].kind != RelationKind::Index {
            return Err(user_error("relation is not an index"));
        }
        if let StorageObject::Heap(_) = &self.relations[i].storage {
            return Err(DbError::InternalInvariant("index relation without index storage"));
        }
        let ghost o = self@;
        let relation = &mut self.relations[i];
        if let StorageObject::BPlusTree(index) = &mut relation.storage {
            index.set_root_page_id(root_page_id);
        }
        proof {
            let rel = o.relations[i as int];
            if let StorageView::BPlusTree(ix) = rel.storage {
                assert(self@.relations =~= o.relations.update(i as int, RelationView {
                    storage: StorageView::BPlusTree(IndexView { root_page_id: root_page_id.0, ..ix }),
                    ..rel
                }));
            }
        }
        Ok(())
    }
}

// ---------------------------------------------------------------------------
// The catalog page.

/// Largest record that fits an empty page together with its slot entry.
pub const MAX_PAGE_RECORD: usize = PAGE_SIZE - HEADER_SIZE - SLOT_SIZE;

/// The catalog's record fits the catalog page.
pub open spec fn catalog_fits_page(c: CatalogView) -> bool {
    catalog_encodable(c) && e_catalog(c).len() <= MAX_PAGE_RECORD
}

/// `p` is a valid catalog page whose slot 0 holds `record`.
#[verifier::opaque]
pub open spec fn is_catalog_page(p: Seq<u8>, record: Seq<u8>) -> bool {
    &&& page_valid(p)
    &&& spec_header(p).page_id == PageId(CATALOG_PAGE)
    &&& spec_header(p).page_type == PageType::Catalog
    &&& raw_slot_count(p) == 1
    &&& slot_live(p, 0)
    &&& slot_record(p, 0) == record
}

/// The catalog that page 0 of the bytes `c` of a data file holds, if it holds
/// one: a valid page with id 0 whose first record decodes as a catalog.
pub open spec fn stored_catalog(c: Seq<u8>) -> Option<CatalogView> {
    let p = c.subrange(0, PAGE_SIZE as int);
    if PAGE_SIZE <= c.len() && page_valid(p) && spec_header(p).page_id == PageId(CATALOG_PAGE)
        && spec_header(p).page_type == PageType::Catalog && raw_slot_count(p) > 0 && slot_live(p, 0)
        && slot_offset_of(p, 0) + slot_len_of(p, 0) <= PAGE_SIZE {
        pr_catalog(slot_record(p, 0))
    } else {
        None
    }
}

/// The live record at `row` in the bytes `c` of a data file: the page at the
/// row's page offset must be a valid page with that id, and the row's slot a
/// live one.
pub open spec fn stored_record(c: Seq<u8>, row: RowId) -> Option<Seq<u8>> {
    let off = spec_page_offset(row.page_id);
    let p = c.subrange(off, off + PAGE_SIZE);
    let s = row.slot_id.0 as int;
    if off + PAGE_SIZE <= c.len() && page_valid(p) && spec_header(p).page_id == row.page_id
        && s < raw_slot_count(p) && slot_live(p, s) {
        Some(slot_record(p, s))
    } else {
        None
    }
}

/// Bytes `c` are the data file `c0` after row `row` was inserted into the
/// page at the row's offset: that page is rewritten with `record` put in
/// slot `row.slot_id` of the page as it stood, and no other byte changes.
pub open spec fn row_put_in_page(c0: Seq<u8>, c: Seq<u8>, row: RowId, record: Seq<u8>) -> bool {
    let off = spec_page_offset(row.page_id);
    exists|img: Seq<u8>| #[trigger] insert_post(c0.subrange(off, off + PAGE_SIZE), img, row.slot_id.0 as int, record)
        && c == write_at(c0, off, img)
}

/// Page image `img` is a fresh heap page of row `row`'s page that holds
/// only `record`, in slot 0.
pub open spec fn fresh_row_page(img: Seq<u8>, row: RowId, record: Seq<u8>) -> bool {
    &&& page_valid(img)
    &&& spec_header(img).page_id == row.page_id
    &&& spec_header(img).page_type == PageType::Heap
    &&& row.slot_id.0 == 0
    &&& raw_slot_count(img) == 1
    &&& slot_live(img, 0)
    &&& slot_record(img, 0) == record
}

/// The page at `id` in the bytes `c` of a data file is a valid heap page
/// carrying that id.
pub open spec fn heap_page_at(c: Seq<u8>, id: PageId) -> bool {
    let off = spec_page_offset(id);
    let p = c.subrange(off, off + PAGE_SIZE);
    &&& off <= u64::MAX
    &&& off + PAGE_SIZE <= c.len()
    &&& page_valid(p)
    &&& spec_header(p).page_id == id
    &&& spec_header(p).page_type == PageType::Heap
}

/// The page image at `id` in the bytes `c` of a data file.
pub open spec fn page_image_at(c: Seq<u8>, id: PageId) -> Seq<u8> {
    c.subrange(spec_page_offset(id), spec_page_offset(id) + PAGE_SIZE)
}

/// The live records among the first `n` slots of page image `p` of page
/// `id`, in slot order, with their row ids.
pub open spec fn live_rows(p: Seq<u8>, id: PageId, n: int) -> Seq<(RowId, Seq<u8>)>
    decreases n,
{
    if n <= 0 {
        Seq::empty()
    } else {
        live_rows(p, id, n - 1) + if slot_live(p, n - 1) {
            seq![(RowId { page_id: id, slot_id: SlotId((n - 1) as u16) }, slot_record(p, n - 1))]
        } else {
            Seq::empty()
        }
    }
}

/// The rows of the heap pages `pages` (the first `k` of them) in the bytes
/// `c` of a data file: page by page, each in slot order; `None` when one of
/// them is not a valid heap page with its id.
pub open spec fn scan_rows(c: Seq<u8>, pages: Seq<u64>, k: int) -> Option<Seq<(RowId, Seq<u8>)>>
    decreases k,
{
    if k <= 0 {
        Some(Seq::empty())
    } else {
        match scan_rows(c, pages, k - 1) {
            Some(rows) => if heap_page_at(c, PageId(pages[k - 1])) {
                let p = page_image_at(c, PageId(pages[k - 1]));
                Some(rows + live_rows(p, PageId(pages[k - 1]), raw_slot_count(p)))
            } else {
                None
            },
            None => None,
        }
    }
}

pub open spec fn heap_rows_view(rows: Seq<HeapRow>) -> Seq<(RowId, Seq<u8>)> {
    rows.map_values(|h: HeapRow| (h.row_id, h.bytes@))
}

/// A live slot below `n` is among the first `n` slots' live rows.
proof fn lemma_live_rows_has(p: Seq<u8>, id: PageId, n: int, s: int)
    requires
        0 <= s < n,
        s <= u16::MAX,
        slot_live(p, s),
    ensures
        live_rows(p, id, n).contains((RowId { page_id: id, slot_id: SlotId(s as u16) }, slot_record(p, s))),
    decreases n,
{
    let e = (RowId { page_id: id, slot_id: SlotId(s as u16) }, slot_record(p, s));
    let pre = live_rows(p, id, n - 1);
    let full = live_rows(p, id, n);
    if s == n - 1 {
        assert(full[pre.len() as int] == e);
    } else {
        lemma_live_rows_has(p, id, n - 1, s);
        let k = choose|k: int| 0 <= k < pre.len() && pre[k] == e;
        assert(full[k] == pre[k]);
    }
}

/// A record stored on one of the pages that a scan covers is among the rows
/// that the scan gives, when it succeeds.
pub proof fn lemma_stored_row_scanned(c: Seq<u8>, pages: Seq<u64>, k: int, row: RowId, b: Seq<u8>)
    requires
        0 <= k <= pages.len(),
        exists|m: int| 0 <= m < k && pages[m] == row.page_id.0,
        stored_record(c, row) == Some(b),
        scan_rows(c, pages, k) is Some,
    ensures
        scan_rows(c, pages, k)->0.contains((row, b)),
    decreases k,
{
    let prev = scan_rows(c, pages, k - 1)->0;
    let full = scan_rows(c, pages, k)->0;
    let id = PageId(pages[k - 1]);
    let p = page_image_at(c, id);
    if pages[k - 1] == row.page_id.0 {
        assert(id == row.page_id);
        let s = row.slot_id.0 as int;
        lemma_live_rows_has(p, id, raw_slot_count(p), s);
        let live = live_rows(p, id, raw_slot_count(p));
        assert(RowId { page_id: id, slot_id: SlotId(s as u16) } == row);
        let q = choose|q: int| 0 <= q < live.len() && live[q] == (row, b);
        assert(full[prev.len() + q] == live[q]);
    } else {
        let m = choose|m: int| 0 <= m < k && pages[m] == row.page_id.0;
        assert(m < k - 1);
        lemma_stored_row_scanned(c, pages, k - 1, row, b);
        let q = choose|q: int| 0 <= q < prev.len() && prev[q] == (row, b);
        assert(full[q] == prev[q]);
    }
}

/// Once one of the first `j` pages fails, every longer scan fails too; and
/// the scan up to `j` failing at page `j` makes the whole scan fail.
pub proof fn lemma_scan_rows_fails(c: Seq<u8>, pages: Seq<u64>, j: int, n: int)
    requires
        0 <= j < n,
        scan_rows(c, pages, j) is Some,
        !heap_page_at(c, PageId(pages[j])),
    ensures
        scan_rows(c, pages, n) is None,
    decreases n - j,
{
    if n > j + 1 {
        lemma_scan_rows_fails(c, pages, j, n - 1);
    }
}

/// A page written to its offset holds, at each of its live slots, that
/// slot's record.
pub proof fn lemma_record_written(c: Seq<u8>, page: Seq<u8>, row: RowId)
    requires
        page_valid(page),
        spec_header(page).page_id == row.page_id,
        spec_page_offset(row.page_id) <= u64::MAX,
        row.slot_id.0 < raw_slot_count(page),
        slot_live(page, row.slot_id.0 as int),
    ensures
        stored_record(write_at(c, spec_page_offset(row.page_id), page), row) == Some(slot_record(page, row.slot_id.0 as int)),
{
    lemma_page_read_after_write(c, row.page_id, page);
}

/// A catalog saved to a data file is loaded back unchanged.
pub proof fn lemma_catalog_save_load(cat: CatalogView, c: Seq<u8>, p: Seq<u8>)
    requires
        catalog_encodable(cat),
        heaps_nonempty(cat),
        is_catalog_page(p, e_catalog(cat)),
    ensures
        stored_catalog(write_at(c, 0, p)) == Some(cat),
        write_at(c, 0, p).len() >= PAGE_SIZE,
{
    lemma_catalog_page_roundtrip(cat, p);
    reveal(is_catalog_page);
    lemma_page_read_after_write(c, PageId(CATALOG_PAGE), p);
    assert(crate::vfs::spec_page_offset(PageId(CATALOG_PAGE)) == 0);
}

/// Read the catalog record out of a page read back from the data file.
pub fn catalog_from_page(page: &Page) -> (r: DbResult<Catalog>)
    requires
        page.wf(),
    ensures
        !header_ok(page@) ==> r is Err && r->Err_0 is Corruption,
        header_ok(page@) && spec_header(page@).page_type != PageType::Catalog ==> r is Err && r->Err_0 is Corruption,
        header_ok(page@) && spec_header(page@).page_type == PageType::Catalog ==> {
            if raw_slot_count(page@) == 0 {
                r is Err && r->Err_0 is User
            } else if !slot_live(page@, 0) {
                r is Err && r->Err_0 is Corruption
            } else if slot_offset_of(page@, 0) + slot_len_of(page@, 0) > PAGE_SIZE {
                r is Err && r->Err_0 is Corruption
            } else {
                match pr_catalog(slot_record(page@, 0)) {
                    Some(c) => r matches Ok(x) && x@ == c,
                    None => r is Err && r->Err_0 is Corruption,
                }
            }
        },
{
    let header = page.header()?;
    if header.page_type != PageType::Catalog {
        return Err(corruption("page 0 is not a catalog page"));
    }
    let bytes = match page.read_record(SlotId(0))? {
        Some(bytes) => bytes,
        None => return Err(corruption("catalog record is missing")),
    };
    decode_catalog(bytes)
}

impl Catalog {
    /// Build the catalog page image for transaction staging and direct writes.
    pub fn to_page(&self) -> (r: DbResult<Page>)
        ensures
            r is Ok <==> catalog_fits_page(self@),
            r matches Ok(p) ==> p.wf() && is_catalog_page(p@, e_catalog(self@)),
            r matches Ok(p) ==> spec_header(p@).page_id.0 == CATALOG_PAGE,
            r is Err ==> r->Err_0 is User,
    {
        let bytes = encode_catalog(self)?;
        let mut page = Page::new(PageId(CATALOG_PAGE), PageType::Catalog);
        let ghost o = page@;
        proof {
            assert(first_dead(o, 0) is None);
        }
        page.insert_record(bytes.as_slice())?;
        proof {
            reveal(is_catalog_page);
        }
        Ok(page)
    }

    /// Persist this catalog as a single record in page 0.
    pub fn save<F: VfsFile>(&self, page_file: &mut PageFile<F>) -> (r: DbResult<()>)
        ensures
            !catalog_fits_page(self@) ==> r is Err && r->Err_0 is User,
            final(page_file).file().modeled() == old(page_file).file().modeled(),
            old(page_file).file().modeled() && r is Ok ==> exists|p: Seq<u8>| #[trigger] is_catalog_page(p, e_catalog(self@))
                && final(page_file).file().contents() == write_at(old(page_file).file().contents(), 0, p),
            old(page_file).file().modeled() && r is Err ==> final(page_file).file().contents() == old(page_file).file().contents(),
            old(page_file).file().modeled() && catalog_fits_page(self@) ==> r is Ok,
    {
        let page = self.to_page()?;
        proof {
            reveal(is_catalog_page);
        }
        page_file.write_page(&page)
    }

    /// Load the catalog from page 0, or bootstrap it when the file is empty.
    pub fn load_or_bootstrap<F: VfsFile>(page_file: &mut PageFile<F>) -> (r: DbResult<Catalog>)
        ensures
            r matches Ok(c) ==> c@ == empty_catalog() || exists|b: Seq<u8>| pr_catalog(b) == Some(c@),
            old(page_file).file().modeled() && old(page_file).file().contents().len() >= PAGE_SIZE ==> {
                &&& *final(page_file) == *old(page_file)
                &&& match stored_catalog(old(page_file).file().contents()) {
                    Some(c) => r matches Ok(x) && x@ == c,
                    None => r is Err,
                }
            },
            final(page_file).file().modeled() == old(page_file).file().modeled(),
            old(page_file).file().modeled() && old(page_file).file().contents().len() == 0
                ==> (r matches Ok(c) && c@ == empty_catalog())
                    && stored_catalog(final(page_file).file().contents()) == Some(empty_catalog()),
            old(page_file).file().modeled() && 0 < old(page_file).file().contents().len() < PAGE_SIZE
                ==> r is Err && r->Err_0 is Corruption && *final(page_file) == *old(page_file),
    {
        let len = page_file.len()?;
        if len == 0 {
            let catalog = Catalog::empty();
            proof {
                lemma_empty_catalog_fits();
            }
            catalog.save(page_file)?;
            proof {
                if old(page_file).file().modeled() {
                    let p = choose|p: Seq<u8>| #[trigger] is_catalog_page(p, e_catalog(catalog@))
                        && page_file.file().contents() == write_at(old(page_file).file().contents(), 0, p);
                    lemma_catalog_save_load(catalog@, old(page_file).file().contents(), p);
                }
            }
            return Ok(catalog);
        }
        if len < PAGE_SIZE as u64 {
            return Err(corruption("database file is too short for catalog page"));
        }
        let page = page_file.read_page(PageId(CATALOG_PAGE))?;
        let catalog = catalog_from_page(&page)?;
        assert(pr_catalog(slot_record(page@, 0)) == Some(catalog@));
        Ok(catalog)
    }
}

// ---------------------------------------------------------------------------
// The catalog store: a page file plus its committed catalog.

/// The catalog after a table named `name` with `columns` was added to `o`.
pub open spec fn with_new_table(o: CatalogView, name: Seq<char>, columns: Seq<ColumnView>) -> CatalogView {
    CatalogView {
        next_relation_id: (o.next_relation_id + 1) as u64,
        next_page_id: (o.next_page_id + 1) as u64,
        relations: o.relations.push(RelationView {
            id: o.next_relation_id,
            name,
            kind: RelationKind::Table,
            storage: StorageView::Heap(seq![o.next_page_id]),
            columns,
        }),
        extensions: o.extensions,
    }
}

/// The catalog after page `page` was appended to heap relation `i` of `o`.
pub open spec fn with_heap_page(o: CatalogView, i: int, page: u64) -> CatalogView {
    CatalogView {
        relations: o.relations.update(i, RelationView {
            storage: StorageView::Heap(storage_heap_pages(o.relations[i].storage).push(page)),
            ..o.relations[i]
        }),
        ..o
    }
}

/// Materialized heap row returned by a scan.
#[derive(Clone, Debug, PartialEq, Eq)]
pub struct HeapRow {
    /// Physical row address.
    pub row_id: RowId,
    /// Raw row bytes stored in the heap table.
    pub bytes: Vec<u8>,
}

/// Handle on a database file for the catalog and its heap tables.
pub struct CatalogStore<F: VfsFile> {
    page_file: PageFile<F>,
    catalog: Catalog,
}

impl<F: VfsFile> View for CatalogStore<F> {
    type V = CatalogView;

    closed spec fn view(&self) -> CatalogView {
        self.catalog@
    }
}

/// Append the live rows of the heap page `page_id`, in slot order.
fn scan_page<F: VfsFile>(page_file: &PageFile<F>, page_id: PageId, rows: &mut Vec<HeapRow>) -> (r: DbResult<()>)
    ensures
        forall|k: int| 0 <= k < old(rows)@.len() ==> #[trigger] final(rows)@[k] == old(rows)@[k],
        final(rows)@.len() >= old(rows)@.len(),
        forall|k: int| old(rows)@.len() <= k < final(rows)@.len() ==> #[trigger] final(rows)@[k].row_id.page_id == page_id,
        page_file.file().modeled() ==> {
            let c = page_file.file().contents();
            if heap_page_at(c, page_id) {
                let p = page_image_at(c, page_id);
                r is Ok && heap_rows_view(final(rows)@) == heap_rows_view(old(rows)@) + live_rows(p, page_id, raw_slot_count(p))
            } else {
                r is Err
            }
        },
{
    let page = page_file.read_page(page_id)?;
    let header = page.header()?;
    if header.page_type != PageType::Heap {
        return Err(corruption("relation page is not a heap page"));
    }
    let ghost base = heap_rows_view(rows@);
    let ghost start = rows@;
    let mut slot_index: u16 = 0;
    proof {
        assert(base + live_rows(page@, page_id, 0) =~= base);
    }
    while slot_index < header.slot_count
        invariant
            page.wf(),
            page_valid(page@),
            header.slot_count == raw_slot_count(page@),
            slot_index <= header.slot_count,
            heap_rows_view(rows@) == base + live_rows(page@, page_id, slot_index as int),
            rows@.len() >= start.len(),
            forall|k: int| 0 <= k < start.len() ==> #[trigger] rows@[k] == start[k],
            forall|k: int| start.len() <= k < rows@.len() ==> #[trigger] rows@[k].row_id.page_id == page_id,
        decreases header.slot_count - slot_index,
    {
        let slot_id = SlotId(slot_index);
        proof {
            assert(crate::page::slot_ok(page@, slot_index as int));
        }
        let ghost before = heap_rows_view(rows@);
        if let Some(record) = page.read_record(slot_id)? {
            let mut copy: Vec<u8> = Vec::new();
            crate::codec::push_bytes(&mut copy, record);
            let row = HeapRow { row_id: RowId { page_id, slot_id }, bytes: copy };
            rows.push(row);
            proof {
                assert(heap_rows_view(rows@) =~= before.push((row.row_id, row.bytes@)));
            }
        }
        slot_index = slot_index + 1;
        proof {
            assert(heap_rows_view(rows@) =~= base + live_rows(page@, page_id, slot_index as int));
        }
    }
    proof {
        if page_file.file().modeled() {
            let c = page_file.file().contents();
            assert(page@ == page_image_at(c, page_id));
            assert(heap_page_at(c, page_id));
        }
    }
    Ok(())
}

impl<F: VfsFile> CatalogStore<F> {
    /// The page file.
    pub closed spec fn pages(&self) -> PageFile<F> {
        self.page_file
    }

    /// Open a catalog store from an already opened page file.
    pub fn open(page_file: PageFile<F>) -> (r: DbResult<Self>)
        ensures
            r matches Ok(s) ==> s@ == empty_catalog() || exists|b: Seq<u8>| pr_catalog(b) == Some(s@),
            page_file.file().modeled() && page_file.file().contents().len() >= PAGE_SIZE ==>
                match stored_catalog(page_file.file().contents()) {
                    Some(c) => r matches Ok(s) && s@ == c && s.pages() == page_file,
                    None => r is Err,
                },
            r matches Ok(s) ==> s.pages().file().modeled() == page_file.file().modeled(),
            page_file.file().modeled() && page_file.file().contents().len() == 0
                ==> (r matches Ok(s) && s@ == empty_catalog()),
    {
        let mut page_file = page_file;
        let catalog = Catalog::load_or_bootstrap(&mut page_file)?;
        Ok(CatalogStore { page_file, catalog })
    }

    /// Borrow the current in-memory catalog snapshot.
    pub fn catalog(&self) -> (r: &Catalog)
        ensures
            r@ == self@,
    {
        &self.catalog
    }

    /// Borrow the page file.
    pub fn page_file(&self) -> (r: &PageFile<F>)
        ensures
            *r == self.pages(),
    {
        &self.page_file
    }

    /// Mutably borrow the page file.
    pub fn page_file_mut(&mut self) -> (r: &mut PageFile<F>)
        ensures
            *r == old(self).pages(),
            final(self).pages() == *final(r),
            final(self)@ == old(self)@,
    {
        &mut self.page_file
    }

    /// Replace the committed in-memory catalog snapshot after a transaction
    /// layer has durably installed its catalog page.
    pub fn replace_catalog(&mut self, catalog: Catalog)
        ensures
            final(self)@ == catalog@,
            final(self).pages() == old(self).pages(),
    {
        self.catalog = catalog;
    }

    /// Create a heap table and persist its catalog entry.
    pub fn create_table(&mut self, name: &str, columns: Vec<ColumnDef>) -> (r: DbResult<RelationId>)
        ensures
            !valid_name(name@) || !columns_valid(columns_view(columns@)) || has_name(old(self)@.relations, name@)
                ==> r is Err && r->Err_0 is User && final(self)@ == old(self)@ && final(self).pages() == old(self).pages(),
            r matches Ok(id) ==> id.0 == old(self)@.next_relation_id
                && final(self)@ == with_new_table(old(self)@, name@, columns_view(columns@)),
            final(self).pages().file().modeled() == old(self).pages().file().modeled(),
            old(self).pages().file().modeled() && valid_name(name@) && columns_valid(columns_view(columns@))
                && !has_name(old(self)@.relations, name@) && old(self)@.next_relation_id < u64::MAX
                && old(self)@.next_page_id < u64::MAX
                && catalog_fits_page(with_new_table(old(self)@, name@, columns_view(columns@)))
                && spec_page_offset(PageId(old(self)@.next_page_id)) + PAGE_SIZE <= usize::MAX ==> r is Ok,
            old(self).pages().file().modeled() && heaps_nonempty(old(self)@) && r is Ok ==> {
                let c = final(self).pages().file().contents();
                let off = spec_page_offset(PageId(old(self)@.next_page_id));
                &&& stored_catalog(c) == Some(final(self)@)
                &&& old(self)@.next_page_id != CATALOG_PAGE ==> off + PAGE_SIZE <= c.len()
                    && is_empty_heap_page(c.subrange(off, off + PAGE_SIZE), old(self)@.next_page_id)
            },
    {
        let ghost cols = columns_view(columns@);
        let ghost c0 = self.page_file.file().contents();
        let (relation_id, first_page_id) = self.catalog.create_table_metadata(name, columns)?;
        let page = Page::new(first_page_id, PageType::Heap);
        proof {
            reveal(is_empty_heap_page);
            assert(is_empty_heap_page(page@, first_page_id.0));
        }
        self.page_file.write_page(&page)?;
        let ghost c1 = self.page_file.file().contents();
        proof {
            if old(self).pages().file().modeled() {
                lemma_page_read_after_write(c0, first_page_id, page@);
            }
        }
        self.catalog.save(&mut self.page_file)?;
        proof {
            if old(self).pages().file().modeled() && heaps_nonempty(old(self)@) {
                let cat = self.catalog@;
                let p = choose|p: Seq<u8>| #[trigger] is_catalog_page(p, e_catalog(cat))
                    && self.page_file.file().contents() == write_at(c1, 0, p);
                assert(heaps_nonempty(cat)) by {
                    assert forall|i: int| 0 <= i < cat.relations.len() implies storage_heap_ok((#[trigger] cat.relations[i]).storage) by {
                        if i < old(self)@.relations.len() {
                            assert(cat.relations[i] == old(self)@.relations[i]);
                        }
                    }
                }
                lemma_catalog_save_load(cat, c1, p);
                if first_page_id.0 != CATALOG_PAGE {
                    reveal(is_catalog_page);
                    let off = spec_page_offset(first_page_id);
                    assert(off >= PAGE_SIZE) by (nonlinear_arith)
                        requires off == first_page_id.0 * PAGE_SIZE, first_page_id.0 >= 1;
                    assert(p.len() == PAGE_SIZE);
                    crate::vfs::lemma_write_at_frame(c1, 0, p, off, off + PAGE_SIZE);
                }
            }
        }
        Ok(relation_id)
    }

    fn relation_position(&self, relation_id: RelationId) -> (r: DbResult<usize>)
        ensures
            !has_id(self@.relations, relation_id.0) ==> r is Err && r->Err_0 is User,
            r matches Ok(i) ==> first_with_id(self@.relations, relation_id.0, i as int)
                && self@.relations[i as int].kind == RelationKind::Table,
            has_id(self@.relations, relation_id.0) ==> exists|i: int| #[trigger] first_with_id(self@.relations, relation_id.0, i)
                && (r is Ok <==> self@.relations[i].kind == RelationKind::Table),
            r is Err ==> r->Err_0 is User,
    {
        let i = match self.catalog.position_by_id(relation_id) {
            Some(i) => i,
            None => return Err(user_error("unknown relation id")),
        };
        if self.catalog.relations[i].kind != RelationKind::Table {
            return Err(user_error("relation is not a heap table"));
        }
        Ok(i)
    }

    /// Insert raw row bytes into a heap table. Existing heap pages are tried in
    /// order; when none has room, a fresh page is allocated and appended.
    pub fn insert_row(&mut self, relation_id: RelationId, bytes: &[u8]) -> (r: DbResult<RowId>)
        ensures
            !has_id(old(self)@.relations, relation_id.0) ==> r is Err && r->Err_0 is User && final(self)@ == old(self)@,
            has_id(old(self)@.relations, relation_id.0) ==> exists|i: int| #[trigger] first_with_id(old(self)@.relations, relation_id.0, i) && {
                let o = old(self)@;
                &&& o.relations[i].kind != RelationKind::Table ==> r is Err && r->Err_0 is User && final(self)@ == o
                &&& r matches Ok(row) ==> {
                    ||| final(self)@ == o && storage_heap_pages(o.relations[i].storage).contains(row.page_id.0)
                    ||| row.page_id.0 == o.next_page_id && row.slot_id.0 == 0
                        && final(self)@ == with_heap_page(CatalogView { next_page_id: (o.next_page_id + 1) as u64, ..o }, i, o.next_page_id)
                }
            },
            r is Ok ==> bytes@.len() <= MAX_PAGE_RECORD,
            final(self).pages().file().modeled() == old(self).pages().file().modeled(),
            old(self).pages().file().modeled() ==> (r matches Ok(row) ==> (row.page_id.0 != CATALOG_PAGE
                ==> stored_record(final(self).pages().file().contents(), row) == Some(bytes@))),
            old(self).pages().file().modeled() ==> (r matches Ok(row) ==> {
                let c0 = old(self).pages().file().contents();
                let c = final(self).pages().file().contents();
                &&& final(self)@ == old(self)@ ==> row_put_in_page(c0, c, row, bytes@)
                &&& final(self)@ != old(self)@ ==> exists|img: Seq<u8>, cp: Seq<u8>|
                    #[trigger] fresh_row_page(img, row, bytes@) && #[trigger] is_catalog_page(cp, e_catalog(final(self)@))
                    && c == write_at(write_at(c0, spec_page_offset(row.page_id), img), 0, cp)
            }),
    {
        let i = self.relation_position(relation_id)?;
        let ghost o = self@;
        let page_ids = self.catalog.relations[i].heap_pages();
        let mut candidates: Vec<PageId> = Vec::new();
        let mut k: usize = 0;
        while k < page_ids.len()
            invariant
                k <= page_ids@.len(),
                candidates@ == page_ids@.subrange(0, k as int),
            decreases page_ids@.len() - k,
        {
            candidates.push(page_ids[k]);
            k = k + 1;
            assert(candidates@ =~= page_ids@.subrange(0, k as int));
        }
        assert(candidates@ =~= page_ids@);
        let mut j: usize = 0;
        while j < candidates.len()
            invariant
                j <= candidates@.len(),
                self@ == o,
                o == old(self)@,
                self.pages() == old(self).pages(),
                first_with_id(o.relations, relation_id.0, i as int),
                o.relations[i as int].kind == RelationKind::Table,
                page_ids_view(candidates@) == storage_heap_pages(o.relations[i as int].storage),
            decreases candidates@.len() - j,
        {
            let page_id = candidates[j];
            let mut page = self.page_file.read_page(page_id)?;
            let ghost before = page@;
            match page.insert_record(bytes) {
                Ok(slot_id) => {
                    proof {
                        lemma_insert_bound(before, page@, slot_id.0 as int, bytes@);
                        assert(page_ids_view(candidates@)[j as int] == page_id.0);
                    }
                    let ghost c0 = self.page_file.file().contents();
                    self.page_file.write_page(&page)?;
                    proof {
                        if old(self).pages().file().modeled() {
                            lemma_record_written(c0, page@, RowId { page_id, slot_id });
                            let off = spec_page_offset(page_id);
                            assert(before == c0.subrange(off, off + PAGE_SIZE));
                            assert(insert_post(c0.subrange(off, off + PAGE_SIZE), page@, slot_id.0 as int, bytes@));
                        }
                    }
                    return Ok(RowId { page_id, slot_id });
                },
                Err(DbError::User(_)) => {},
                Err(error) => return Err(error),
            }
            j = j + 1;
        }
        let page_id = self.catalog.allocate_page_id()?;
        let mut page = Page::new(page_id, PageType::Heap);
        let ghost before = page@;
        proof {
            assert(first_dead(before, 0) is None);
        }
        let slot_id = page.insert_record(bytes)?;
        proof {
            lemma_insert_bound(before, page@, slot_id.0 as int, bytes@);
        }
        let ghost c0 = self.page_file.file().contents();
        self.page_file.write_page(&page)?;
        let ghost c1 = self.page_file.file().contents();
        self.catalog.append_heap_page(relation_id, page_id)?;
        self.catalog.save(&mut self.page_file)?;
        proof {
            if old(self).pages().file().modeled() && page_id.0 != CATALOG_PAGE {
                lemma_record_written(c0, page@, RowId { page_id, slot_id });
                lemma_page_read_after_write(c0, page_id, page@);
                let cp = choose|cp: Seq<u8>| #[trigger] is_catalog_page(cp, e_catalog(self.catalog@))
                    && self.page_file.file().contents() == write_at(c1, 0, cp);
                reveal(is_catalog_page);
                let off = spec_page_offset(page_id);
                lemma_write_at_frame(c1, 0, cp, off, off + PAGE_SIZE);
            }
            if old(self).pages().file().modeled() {
                let cp = choose|cp: Seq<u8>| #[trigger] is_catalog_page(cp, e_catalog(self.catalog@))
                    && self.page_file.file().contents() == write_at(c1, 0, cp);
                assert(fresh_row_page(page@, RowId { page_id, slot_id }, bytes@));
                assert(c1 == write_at(c0, spec_page_offset(page_id), page@));
                assert(is_catalog_page(cp, e_catalog(self@)));
            }
        }
        Ok(RowId { page_id, slot_id })
    }

    /// Scan every live row in heap-page order, and in slot order within a page.
    pub fn full_scan(&self, relation_id: RelationId) -> (r: DbResult<Vec<HeapRow>>)
        ensures
            !has_id(self@.relations, relation_id.0) ==> r is Err && r->Err_0 is User,
            has_id(self@.relations, relation_id.0) ==> exists|i: int| #[trigger] first_with_id(self@.relations, relation_id.0, i) && {
                &&& self@.relations[i].kind != RelationKind::Table ==> r is Err && r->Err_0 is User
                &&& r matches Ok(rows) ==> forall|k: int| 0 <= k < rows@.len() ==>
                    storage_heap_pages(self@.relations[i].storage).contains(#[trigger] rows@[k].row_id.page_id.0)
                &&& self.pages().file().modeled() && self@.relations[i].kind == RelationKind::Table ==> {
                    let pages = storage_heap_pages(self@.relations[i].storage);
                    match scan_rows(self.pages().file().contents(), pages, pages.len() as int) {
                        Some(rows) => r matches Ok(x) && heap_rows_view(x@) == rows,
                        None => r is Err,
                    }
                }
            },
    {
        let i = self.relation_position(relation_id)?;
        let page_ids = self.catalog.relations[i].heap_pages();
        let ghost c = self.page_file.file().contents();
        let ghost modeled = self.page_file.file().modeled();
        let ghost pages = storage_heap_pages(self@.relations[i as int].storage);
        let mut rows: Vec<HeapRow> = Vec::new();
        let mut j: usize = 0;
        while j < page_ids.len()
            invariant
                j <= page_ids@.len(),
                page_ids_view(page_ids@) == pages,
                first_with_id(self@.relations, relation_id.0, i as int),
                self@.relations[i as int].kind == RelationKind::Table,
                pages == storage_heap_pages(self@.relations[i as int].storage),
                forall|k: int| 0 <= k < rows@.len() ==> pages.contains(#[trigger] rows@[k].row_id.page_id.0),
                c == self.pages().file().contents(),
                modeled == self.pages().file().modeled(),
                modeled ==> scan_rows(c, pages, j as int) == Some(heap_rows_view(rows@)),
            decreases page_ids@.len() - j,
        {
            let page_id = page_ids[j];
            assert(pages[j as int] == page_id.0);
            let ghost before = heap_rows_view(rows@);
            match scan_page(&self.page_file, page_id, &mut rows) {
                Ok(()) => {},
                Err(e) => {
                    proof {
                        if modeled {
                            lemma_scan_rows_fails(c, pages, j as int, pages.len() as int);
                        }
                    }
                    return Err(e);
                },
            }
            proof {
                assert forall|k: int| 0 <= k < rows@.len() implies pages.contains(#[trigger] rows@[k].row_id.page_id.0) by {
                    if k >= before.len() {
                        assert(heap_rows_view(rows@)[k].0 == rows@[k].row_id);
                    } else {
                        assert(heap_rows_view(rows@)[k] == before[k]);
                    }
                }
            }
            j = j + 1;
        }
        Ok(rows)
    }

    /// Read one heap row by physical row id after checking relation ownership.
    pub fn read_row(&self, relation_id: RelationId, row_id: RowId) -> (r: DbResult<Option<HeapRow>>)
        ensures
            !has_id(self@.relations, relation_id.0) ==> r is Err && r->Err_0 is User,
            has_id(self@.relations, relation_id.0) ==> exists|i: int| #[trigger] first_with_id(self@.relations, relation_id.0, i) && {
                &&& self@.relations[i].kind != RelationKind::Table ==> r is Err && r->Err_0 is User
                &&& !storage_heap_pages(self@.relations[i].storage).contains(row_id.page_id.0) ==> r is Err && r->Err_0 is User
                &&& self.pages().file().modeled() && self@.relations[i].kind == RelationKind::Table
                    && storage_heap_pages(self@.relations[i].storage).contains(row_id.page_id.0)
                    && heap_page_at(self.pages().file().contents(), row_id.page_id)
                    ==> match stored_record(self.pages().file().contents(), row_id) {
                        Some(b) => r matches Ok(Some(row)) && row.bytes@ == b,
                        None => r matches Ok(None) || r is Err,
                    }
            },
            r matches Ok(Some(row)) ==> row.row_id == row_id,
            self.pages().file().modeled() ==> (r matches Ok(Some(row)) ==> stored_record(self.pages().file().contents(), row_id) == Some(row.bytes@)),
            self.pages().file().modeled() ==> (r matches Ok(None) ==> stored_record(self.pages().file().contents(), row_id) is None),
    {
        let i = self.relation_position(relation_id)?;
        let page_ids = self.catalog.relations[i].heap_pages();
        let ghost pages = storage_heap_pages(self@.relations[i as int].storage);
        let mut owned = false;
        let mut j: usize = 0;
        while j < page_ids.len()
            invariant
                j <= page_ids@.len(),
                page_ids_view(page_ids@) == pages,
                first_with_id(self@.relations, relation_id.0, i as int),
                self@.relations[i as int].kind == RelationKind::Table,
                pages == storage_heap_pages(self@.relations[i as int].storage),
                owned == exists|k: int| 0 <= k < j && #[trigger] pages[k] == row_id.page_id.0,
            decreases page_ids@.len() - j,
        {
            if page_ids[j] == row_id.page_id {
                owned = true;
            }
            assert(pages[j as int] == page_ids@[j as int].0);
            j = j + 1;
        }
        if !owned {
            return Err(user_error("row page does not belong to relation"));
        }
        let page = self.page_file.read_page(row_id.page_id)?;
        let header = page.header()?;
        if header.page_type != PageType::Heap {
            return Err(corruption("relation page is not a heap page"));
        }
        proof {
            if (row_id.slot_id.0 as int) < raw_slot_count(page@) {
                assert(crate::page::slot_ok(page@, row_id.slot_id.0 as int));
            }
        }
        match page.read_record(row_id.slot_id)? {
            Some(record) => {
                let mut copy: Vec<u8> = Vec::new();
                crate::codec::push_bytes(&mut copy, record);
                Ok(Some(HeapRow { row_id, bytes: copy }))
            },
            None => Ok(None),
        }
    }

    /// Persist current page-file contents through the VFS boundary.
    pub fn sync_data(&mut self) -> (r: DbResult<()>)
        ensures
            final(self)@ == old(self)@,
            final(self).pages().file().modeled() == old(self).pages().file().modeled(),
            old(self).pages().file().modeled() ==> final(self).pages().file().contents() == old(self).pages().file().contents(),
            old(self).pages().file().modeled() ==> r is Ok,
    {
        self.page_file.sync_data()
    }

    /// Consume the store and return its page file and catalog snapshot.
    pub fn into_parts(self) -> (r: (PageFile<F>, Catalog))
        ensures
            r.0 == self.pages(),
            r.1@ == self@,
    {
        (self.page_file, self.catalog)
    }
}

/// A successful insert needs the record to fit an empty page.
pub proof fn lemma_insert_bound(o: Seq<u8>, n: Seq<u8>, s: int, record: Seq<u8>)
    requires
        header_ok(o),
        insert_post(o, n, s, record),
    ensures
        record.len() <= MAX_PAGE_RECORD,
        0 <= s < raw_slot_count(n),
{
    if first_dead(o, raw_slot_count(o)) is Some {
        crate::page::lemma_first_dead_bound(o, raw_slot_count(o));
    }
    assert(raw_slot_count(n) >= 1) by {
        if first_dead(o, raw_slot_count(o)) is Some {
            crate::page::lemma_first_dead_bound(o, raw_slot_count(o));
        }
    }
}

/// Open a catalog store through an arbitrary VFS implementation.
pub fn open_catalog_store<V: Vfs>(vfs: &V, path: &str) -> (r: DbResult<CatalogStore<V::File>>)
    ensures
        r matches Ok(s) ==> s@ == empty_catalog() || exists|b: Seq<u8>| pr_catalog(b) == Some(s@),
        vfs.opens_fresh() ==> (r matches Ok(s) && s@ == empty_catalog() && s.pages().file().modeled()),
{
    let page_file = open_page_file(vfs, path)?;
    CatalogStore::open(page_file)
}

/// A catalog written to its page is read back unchanged from that page.
pub proof fn lemma_catalog_page_roundtrip(c: CatalogView, p: Seq<u8>)
    requires
        catalog_encodable(c),
        heaps_nonempty(c),
        is_catalog_page(p, e_catalog(c)),
    ensures
        header_ok(p),
        spec_header(p).page_type == PageType::Catalog,
        raw_slot_count(p) > 0,
        slot_live(p, 0),
        slot_offset_of(p, 0) + slot_len_of(p, 0) <= PAGE_SIZE,
        pr_catalog(slot_record(p, 0)) == Some(c),
{
    reveal(is_catalog_page);
    assert(crate::page::slot_ok(p, 0));
    lemma_catalog_roundtrip(c);
}

// ---------------------------------------------------------------------------
// Copies.

fn copy_string(s: &String) -> (r: String)
    ensures
        r@ == s@,
{
    s.clone()
}

fn copy_columns(columns: &Vec<ColumnDef>) -> (r: Vec<ColumnDef>)
    ensures
        columns_view(r@) == columns_view(columns@),
{
    let mut out: Vec<ColumnDef> = Vec::new();
    let mut i: usize = 0;
    while i < columns.len()
        invariant
            i <= columns@.len(),
            columns_view(out@) == columns_view(columns@).subrange(0, i as int),
        decreases columns@.len() - i,
    {
        let c = &columns[i];
        let nc = ColumnDef { name: copy_string(&c.name), sql_type: copy_string(&c.sql_type) };
        assert(nc@ == columns_view(columns@)[i as int]);
        let ghost before = columns_view(out@);
        out.push(nc);
        assert(columns_view(out@) =~= before.push(nc@));
        i = i + 1;
        assert(columns_view(out@) =~= columns_view(columns@).subrange(0, i as int));
    }
    assert(columns_view(columns@).subrange(0, columns@.len() as int) =~= columns_view(columns@));
    out
}

fn copy_storage(storage: &StorageObject) -> (r: StorageObject)
    ensures
        r@ == storage@,
{
    match storage {
        StorageObject::Heap(heap) => {
            let mut pages: Vec<PageId> = Vec::new();
            let mut i: usize = 0;
            while i < heap.pages.len()
                invariant
                    i <= heap.pages@.len(),
                    pages@ == heap.pages@.subrange(0, i as int),
                decreases heap.pages@.len() - i,
            {
                pages.push(heap.pages[i]);
                i = i + 1;
                assert(pages@ =~= heap.pages@.subrange(0, i as int));
            }
            assert(pages@ =~= heap.pages@);
            StorageObject::Heap(HeapStorage { pages })
        },
        StorageObject::BPlusTree(index) => StorageObject::BPlusTree(IndexStorage {
            table_id: index.table_id,
            column_name: copy_string(&index.column_name),
            root_page_id: index.root_page_id,
        }),
    }
}

impl RelationInfo {
    /// An independent copy of this relation's metadata.
    pub fn duplicate(&self) -> (r: RelationInfo)
        ensures
            r@ == self@,
    {
        RelationInfo {
            id: self.id,
            name: copy_string(&self.name),
            kind: self.kind,
            storage: copy_storage(&self.storage),
            columns: copy_columns(&self.columns),
        }
    }
}

impl Catalog {
    /// An independent copy of this catalog.
    pub fn snapshot(&self) -> (r: Catalog)
        ensures
            r@ == self@,
    {
        let mut relations: Vec<RelationInfo> = Vec::new();
        let mut i: usize = 0;
        while i < self.relations.len()
            invariant
                i <= self.relations@.len(),
                relations_view(relations@) == relations_view(self.relations@).subrange(0, i as int),
            decreases self.relations@.len() - i,
        {
            let r = &self.relations[i];
            let nr = RelationInfo {
                id: r.id,
                name: copy_string(&r.name),
                kind: r.kind,
                storage: copy_storage(&r.storage),
                columns: copy_columns(&r.columns),
            };
            assert(nr@ == relations_view(self.relations@)[i as int]);
            let ghost before = relations_view(relations@);
            relations.push(nr);
            assert(relations_view(relations@) =~= before.push(nr@));
            i = i + 1;
            assert(relations_view(relations@) =~= relations_view(self.relations@).subrange(0, i as int));
        }
        let mut extensions: Vec<ExtensionInfo> = Vec::new();
        let mut k: usize = 0;
        while k < self.extensions.len()
            invariant
                k <= self.extensions@.len(),
                extensions_view(extensions@) == extensions_view(self.extensions@).subrange(0, k as int),
            decreases self.extensions@.len() - k,
        {
            let x = &self.extensions[k];
            let nx = ExtensionInfo {
                name: copy_string(&x.name),
                abi_version: x.abi_version,
                kind: copy_string(&x.kind),
            };
            assert(nx@ == extensions_view(self.extensions@)[k as int]);
            let ghost before = extensions_view(extensions@);
            extensions.push(nx);
            assert(extensions_view(extensions@) =~= before.push(nx@));
            k = k + 1;
            assert(extensions_view(extensions@) =~= extensions_view(self.extensions@).subrange(0, k as int));
        }
        let c = Catalog {
            next_relation_id: self.next_relation_id,
            next_page_id: self.next_page_id,
            relations,
            extensions,
        };
        assert(c@.relations =~= self@.relations);
        assert(c@.extensions =~= self@.extensions);
        c
    }
}

/// The catalog after extension metadata was added to `o`.
pub open spec fn with_extension(o: CatalogView, name: Seq<char>, abi_version: u32, kind: Seq<char>) -> CatalogView {
    CatalogView {
        extensions: o.extensions.push(ExtensionView { name, abi_version, kind }),
        ..o
    }
}

/// A fresh, empty heap page with id `id`.
#[verifier::opaque]
pub open spec fn is_empty_heap_page(p: Seq<u8>, id: u64) -> bool {
    &&& page_valid(p)
    &&& spec_header(p).page_id == PageId(id)
    &&& spec_header(p).page_type == PageType::Heap
    &&& raw_slot_count(p) == 0
}

} // verus!
