use rdbms::catalog::{decode_catalog, CatalogStore, ColumnDef};
use rdbms::index::IndexKey;
use rdbms::recovery::recover_page_file;
use rdbms::tx::{open_transactional_store, TransactionState, TransactionalStore};
use rdbms::types::{DbError, DbResult, PageId, RowId, SlotId};
use rdbms::vfs::{MemVfs, MemVfsFile, PageFile};
use rdbms::wal::{WalReader, WalRecordKind};

fn open() -> DbResult<TransactionalStore<MemVfsFile>> {
    open_transactional_store(&MemVfs, "data", "wal")
}

#[test]
fn autocommit_create_insert_and_full_scan() -> DbResult<()> {
    let mut store = open()?;
    let relation_id = store.create_table_autocommit("events", vec![ColumnDef::new("payload", "bytes")])?;
    let row_id = store.insert_row_autocommit(relation_id, b"first event")?;
    let rows = store.full_scan(relation_id)?;
    assert_eq!(rows.len(), 1);
    assert_eq!(rows[0].row_id, row_id);
    assert_eq!(rows[0].bytes, b"first event".to_vec());
    Ok(())
}

#[test]
fn autocommit_registers_extension_metadata() -> DbResult<()> {
    let mut store = open()?;
    assert!(store.register_extension_autocommit("stdlib", 1, "static")?);
    assert!(!store.register_extension_autocommit("stdlib", 1, "static")?);
    let extension = store
        .catalog()
        .extension_by_name("stdlib")
        .ok_or(DbError::InternalInvariant("extension metadata missing"))?;
    assert_eq!(extension.abi_version, 1);
    assert_eq!(extension.kind, "static");
    Ok(())
}

#[test]
fn rollback_drops_uncommitted_insert() -> DbResult<()> {
    let mut store = open()?;
    let relation_id = store.create_table_autocommit("items", vec![ColumnDef::new("payload", "bytes")])?;
    {
        let mut transaction = store.begin()?;
        transaction.insert_row(relation_id, b"uncommitted")?;
        assert_eq!(transaction.full_scan(relation_id)?.len(), 1);
        transaction.rollback()?;
    }
    assert!(store.full_scan(relation_id)?.is_empty());
    Ok(())
}

#[test]
fn rollback_drops_uncommitted_table_create() -> DbResult<()> {
    let mut store = open()?;
    {
        let mut transaction = store.begin()?;
        transaction.create_table("scratch", vec![ColumnDef::new("payload", "bytes")])?;
        assert!(transaction.catalog().relation_by_name("scratch").is_some());
        transaction.rollback()?;
    }
    assert!(store.catalog().relation_by_name("scratch").is_none());
    Ok(())
}

#[test]
fn committed_pages_can_be_recovered_from_wal() -> DbResult<()> {
    let mut store = open()?;
    let relation_id = store.create_table_autocommit("audit", vec![ColumnDef::new("payload", "bytes")])?;
    let row_id = store.insert_row_autocommit(relation_id, b"committed through wal")?;
    let (catalog_store, wal) = store.into_parts();
    let (_data, _catalog) = catalog_store.into_parts();
    let wal_file = wal.into_inner();

    // Replay the WAL onto an empty data file: the committed pages come back.
    let recovered = recover_page_file(PageFile::new(MemVfsFile::new()), wal_file)?;
    assert!(recovered.recovery_report().redone_page_images >= 3);
    let page = recovered.page_file().read_page(row_id.page_id)?;
    assert_eq!(page.read_record(row_id.slot_id)?, Some(&b"committed through wal"[..]));
    let catalog_page = recovered.page_file().read_page(PageId(0))?;
    let record = catalog_page.read_record(SlotId(0))?.unwrap();
    let catalog = decode_catalog(record)?;
    assert!(catalog.relation_by_name("audit").is_some());
    Ok(())
}

#[test]
fn second_writer_is_refused_while_one_is_active() -> DbResult<()> {
    let mut store = open()?;
    let transaction = store.begin()?;
    assert_eq!(transaction.state(), TransactionState::Active);
    assert_eq!(transaction.tx_id().0, 1);
    let manager = transaction.manager;
    assert!(matches!(manager.begin().err(), Some(DbError::Retryable(_))));
    Ok(())
}

#[test]
fn index_entries_are_staged_and_found_after_commit() -> DbResult<()> {
    let mut store = open()?;
    let table = store.create_table_autocommit("users", vec![ColumnDef::new("id", "INT")])?;
    let index = {
        let mut transaction = store.begin()?;
        let (index, root) = transaction.create_index("users_id", table, "id")?;
        assert!(root.0 > 0);
        for value in 0..12_i64 {
            transaction.insert_index_entry(
                index,
                IndexKey::Integer(value % 4),
                RowId { page_id: PageId(1), slot_id: SlotId(value as u16) },
            )?;
        }
        transaction.commit()?;
        index
    };
    let found = store.lookup_index(index, &IndexKey::Integer(2))?;
    assert_eq!(found.len(), 3);
    assert!(matches!(store.lookup_index(table, &IndexKey::Integer(2)).unwrap_err(), DbError::User(_)));
    Ok(())
}

#[test]
fn commit_logs_images_then_marker_then_writes_pages() -> DbResult<()> {
    let mut store = open()?;
    let relation_id = {
        let mut transaction = store.begin()?;
        let relation_id = transaction.create_table("audit", vec![ColumnDef::new("payload", "bytes")])?;
        transaction.insert_row(relation_id, b"logged first")?;
        transaction.commit()?;
        relation_id
    };
    let (catalog_store, wal) = store.into_parts();
    let (data, _catalog) = catalog_store.into_parts();
    let records = WalReader::new(wal.into_inner()).read_all()?;

    // BeginTx, the staged pages in ascending page-id order, then CommitTx.
    assert!(matches!(records[0].kind, WalRecordKind::BeginTx { tx_id } if tx_id.0 == 1));
    let images: Vec<(u64, Vec<u8>)> = records[1..records.len() - 1]
        .iter()
        .map(|record| match &record.kind {
            WalRecordKind::PageImage { tx_id, page_id, image } => {
                assert_eq!(tx_id.0, 1);
                (page_id.0, image.clone())
            }
            other => panic!("unexpected record {other:?}"),
        })
        .collect();
    assert_eq!(images.iter().map(|(id, _)| *id).collect::<Vec<_>>(), vec![0, 1]);
    assert!(matches!(records[records.len() - 1].kind, WalRecordKind::CommitTx { tx_id } if tx_id.0 == 1));

    // Each record sits at its own LSN, right after the one before it.
    assert_eq!(records[0].lsn.0, 0);
    assert_eq!(records[1].lsn.0, 40);
    assert_eq!(records[2].lsn.0, 40 + 40 + 4096);

    // The data file holds exactly the logged images at their page offsets.
    for (page_id, image) in &images {
        assert_eq!(&data.read_page(PageId(*page_id))?.as_bytes().to_vec(), image);
    }
    let rows = CatalogStore::open(data)?.full_scan(relation_id)?;
    assert_eq!(rows.len(), 1);
    assert_eq!(rows[0].bytes, b"logged first".to_vec());
    Ok(())
}

#[test]
fn abandoned_transaction_releases_the_writer() -> DbResult<()> {
    let mut store = open()?;
    let transaction = store.begin()?;
    transaction.abandon();
    let second = store.begin()?;
    assert_eq!(second.tx_id().0, 2);
    second.rollback()?;
    Ok(())
}

#[test]
fn reopened_store_continues_past_logged_transaction_ids() -> DbResult<()> {
    let mut store = open()?;
    store.create_table_autocommit("audit", vec![ColumnDef::new("payload", "bytes")])?;
    store.register_extension_autocommit("stdlib", 1, "static")?;
    let (catalog_store, wal) = store.into_parts();
    let mut reopened = TransactionalStore::resume(catalog_store, wal.into_inner())?;
    let transaction = reopened.begin()?;
    assert_eq!(transaction.tx_id().0, 3);
    transaction.rollback()?;
    Ok(())
}

#[test]
fn staged_row_is_seen_by_the_transaction_scan() -> DbResult<()> {
    let mut store = open()?;
    let relation_id = store.create_table_autocommit("notes", vec![ColumnDef::new("payload", "bytes")])?;
    store.insert_row_autocommit(relation_id, b"committed")?;
    let mut transaction = store.begin()?;
    let row_id = transaction.insert_row(relation_id, b"staged")?;
    let rows = transaction.full_scan(relation_id)?;
    assert_eq!(rows.len(), 2);
    assert_eq!(rows[0].bytes, b"committed".to_vec());
    assert_eq!(rows[1].row_id, row_id);
    assert_eq!(rows[1].bytes, b"staged".to_vec());
    transaction.rollback()?;
    Ok(())
}
