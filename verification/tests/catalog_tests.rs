use rdbms::catalog::{
    decode_catalog, encode_catalog, open_catalog_store, Catalog, CatalogStore, ColumnDef,
    RelationKind,
};
use rdbms::types::{DbError, DbResult, PageId, RelationId};
use rdbms::vfs::{MemVfs, MemVfsFile, PageFile};

fn reopen(store: CatalogStore<MemVfsFile>) -> DbResult<CatalogStore<MemVfsFile>> {
    let (page_file, _catalog) = store.into_parts();
    CatalogStore::open(PageFile::new(page_file.into_inner()))
}

#[test]
fn bootstraps_catalog_and_reopens_schema() -> DbResult<()> {
    let vfs = MemVfs;
    let mut store = open_catalog_store(&vfs, "reopen_schema")?;
    let relation_id = store.create_table(
        "users",
        vec![ColumnDef::new("id", "int"), ColumnDef::new("name", "text")],
    )?;
    store.sync_data()?;

    let store = reopen(store)?;
    let relation = store
        .catalog()
        .relation_by_name("users")
        .ok_or(DbError::InternalInvariant("users relation was not reopened"))?;

    assert_eq!(relation.id, relation_id);
    assert_eq!(relation.kind, RelationKind::Table);
    assert_eq!(relation.heap_pages(), &[PageId(1)]);
    assert_eq!(relation.columns[0], ColumnDef::new("id", "int"));
    assert_eq!(relation.columns[1], ColumnDef::new("name", "text"));
    Ok(())
}

#[test]
fn inserts_row_bytes_and_full_scans_heap_table() -> DbResult<()> {
    let vfs = MemVfs;
    let mut store = open_catalog_store(&vfs, "heap_scan")?;
    let relation_id = store.create_table("events", vec![ColumnDef::new("payload", "bytes")])?;

    let first = store.insert_row(relation_id, b"first row")?;
    let second = store.insert_row(relation_id, b"second row")?;
    let rows = store.full_scan(relation_id)?;

    assert_eq!(rows.len(), 2);
    assert_eq!(rows[0].row_id, first);
    assert_eq!(rows[0].bytes, b"first row".to_vec());
    assert_eq!(rows[1].row_id, second);
    assert_eq!(rows[1].bytes, b"second row".to_vec());
    Ok(())
}

#[test]
fn heap_insert_allocates_additional_pages() -> DbResult<()> {
    let vfs = MemVfs;
    let mut store = open_catalog_store(&vfs, "heap_extend")?;
    let relation_id = store.create_table("large_rows", vec![ColumnDef::new("payload", "bytes")])?;
    let payload = vec![0x7B; 900];

    for _ in 0..8 {
        store.insert_row(relation_id, &payload)?;
    }

    let rows = store.full_scan(relation_id)?;
    let relation = store
        .catalog()
        .relation_by_id(relation_id)
        .ok_or(DbError::InternalInvariant("relation disappeared"))?;
    assert_eq!(rows.len(), 8);
    assert!(relation.heap_pages().len() > 1);
    Ok(())
}

#[test]
fn creates_index_metadata() -> DbResult<()> {
    let mut catalog = Catalog::empty();
    let (table_id, _) = catalog.create_table_metadata("users", vec![ColumnDef::new("id", "INT")])?;
    let (index_id, root_page_id) = catalog.create_index_metadata("users_id_idx", table_id, "id")?;

    assert!(root_page_id.0 > 0);
    let index = catalog
        .relation_by_id(index_id)
        .ok_or(DbError::InternalInvariant("index metadata disappeared"))?;
    let storage = index
        .index_storage()
        .ok_or(DbError::InternalInvariant("missing index storage"))?;
    assert_eq!(storage.table_id(), table_id);
    assert_eq!(storage.column_name(), "id");
    assert_eq!(storage.root_page_id(), root_page_id);
    Ok(())
}

#[test]
fn persists_extension_metadata() -> DbResult<()> {
    let vfs = MemVfs;
    let mut store = open_catalog_store(&vfs, "extension_metadata")?;
    let mut catalog = store.catalog().snapshot();
    assert!(catalog.register_extension_metadata("stdlib", 1, "static")?);
    catalog.save(store.page_file_mut())?;
    store.sync_data()?;

    let store = reopen(store)?;
    let extension = store
        .catalog()
        .extension_by_name("stdlib")
        .ok_or(DbError::InternalInvariant("extension metadata was not reopened"))?;
    assert_eq!(extension.abi_version, 1);
    assert_eq!(extension.kind, "static");
    Ok(())
}

#[test]
fn rejects_duplicate_relation_names() -> DbResult<()> {
    let vfs = MemVfs;
    let mut store = open_catalog_store(&vfs, "duplicate_relation")?;
    store.create_table("items", vec![ColumnDef::new("payload", "bytes")])?;
    let error = store
        .create_table("items", vec![ColumnDef::new("payload", "bytes")])
        .err()
        .ok_or(DbError::InternalInvariant("duplicate relation was accepted"))?;
    assert!(matches!(error, DbError::User(_)));
    Ok(())
}

#[test]
fn catalog_record_round_trips() -> DbResult<()> {
    let mut catalog = Catalog::empty();
    let (table, _) = catalog.create_table_metadata("t", vec![ColumnDef::new("k", "INT"), ColumnDef::new("v", "TEXT")])?;
    catalog.create_index_metadata("t_k", table, "k")?;
    catalog.register_extension_metadata("stdlib", 1, "static")?;
    let bytes = encode_catalog(&catalog)?;
    assert_eq!(&bytes[0..4], b"RDBC");
    assert_eq!(decode_catalog(&bytes)?, catalog);
    Ok(())
}

#[test]
fn record_without_extension_section_decodes_with_none() -> DbResult<()> {
    let catalog = Catalog::empty();
    let bytes = encode_catalog(&catalog)?;
    let legacy = &bytes[..bytes.len() - 4];
    let decoded = decode_catalog(legacy)?;
    assert!(decoded.extensions().is_empty());
    assert!(matches!(decode_catalog(&bytes[..10]).unwrap_err(), DbError::Corruption(_)));
    Ok(())
}

#[test]
fn catalog_validation_errors() -> DbResult<()> {
    let mut catalog = Catalog::empty();
    assert!(matches!(catalog.create_table_metadata("", vec![]).unwrap_err(), DbError::User(_)));
    assert!(matches!(
        catalog
            .create_table_metadata("t", vec![ColumnDef::new("a", "INT"), ColumnDef::new("a", "TEXT")])
            .unwrap_err(),
        DbError::User(_)
    ));
    let (table, first_page) = catalog.create_table_metadata("t", vec![ColumnDef::new("a", "INT")])?;
    assert_eq!(table, RelationId(1));
    assert_eq!(first_page, PageId(1));
    assert!(matches!(catalog.create_index_metadata("i", table, "missing").unwrap_err(), DbError::User(_)));
    assert!(matches!(catalog.append_heap_page(RelationId(99), PageId(5)).unwrap_err(), DbError::User(_)));
    catalog.append_heap_page(table, PageId(7))?;
    assert_eq!(catalog.relation_by_id(table).unwrap().heap_pages(), &[PageId(1), PageId(7)]);
    assert!(catalog.register_extension_metadata("ext", 2, "static")?);
    assert!(!catalog.register_extension_metadata("ext", 2, "static")?);
    assert!(matches!(catalog.register_extension_metadata("ext", 3, "static").unwrap_err(), DbError::User(_)));
    Ok(())
}

#[test]
fn index_root_update_and_listing() -> DbResult<()> {
    let mut catalog = Catalog::empty();
    let (table, _) = catalog.create_table_metadata("t", vec![ColumnDef::new("a", "INT")])?;
    let (index, root) = catalog.create_index_metadata("t_a", table, "a")?;
    assert_eq!(root, PageId(2));
    assert_eq!(catalog.indexes_on_table(table).len(), 1);
    catalog.set_index_root_page(index, PageId(40))?;
    assert_eq!(catalog.relation_by_id(index).unwrap().index_storage().unwrap().root_page_id(), PageId(40));
    assert!(matches!(catalog.set_index_root_page(table, PageId(1)).unwrap_err(), DbError::User(_)));
    assert!(matches!(catalog.create_index_metadata("t_a2", table, "a").unwrap_err(), DbError::User(_)));
    Ok(())
}

#[test]
fn short_database_file_is_refused_as_corrupt() {
    let mut page_file = PageFile::new(MemVfsFile::from_bytes(vec![0_u8; 100]));
    let error = Catalog::load_or_bootstrap(&mut page_file).unwrap_err();
    assert!(matches!(error, DbError::Corruption(_)));
    assert_eq!(page_file.into_inner().contents().len(), 100);
}

#[test]
fn empty_database_file_gets_a_catalog_page() -> DbResult<()> {
    let mut page_file = PageFile::new(MemVfsFile::new());
    let catalog = Catalog::load_or_bootstrap(&mut page_file)?;
    assert!(catalog.relations().is_empty());
    let reloaded = Catalog::load_or_bootstrap(&mut page_file)?;
    assert!(reloaded.relations().is_empty());
    assert_eq!(page_file.into_inner().contents().len(), 4096);
    Ok(())
}

#[test]
fn duplicate_table_leaves_the_data_file_untouched() -> DbResult<()> {
    let vfs = MemVfs;
    let mut reference = open_catalog_store(&vfs, "duplicate_reference")?;
    reference.create_table("items", vec![ColumnDef::new("payload", "bytes")])?;
    let mut store = open_catalog_store(&vfs, "duplicate_untouched")?;
    store.create_table("items", vec![ColumnDef::new("payload", "bytes")])?;
    assert!(store.create_table("items", vec![ColumnDef::new("payload", "bytes")]).is_err());
    let (reference_file, _) = reference.into_parts();
    let (page_file, _) = store.into_parts();
    assert_eq!(page_file.into_inner().contents(), reference_file.into_inner().contents());
    Ok(())
}

#[test]
fn catalog_record_with_trailing_byte_is_refused() -> DbResult<()> {
    let mut catalog = Catalog::empty();
    catalog.create_table_metadata("t", vec![ColumnDef::new("k", "INT")])?;
    let mut bytes = encode_catalog(&catalog)?;
    bytes.push(0);
    assert!(matches!(decode_catalog(&bytes).unwrap_err(), DbError::Corruption(_)));
    Ok(())
}
