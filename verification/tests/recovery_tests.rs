use rdbms::page::{Page, PageType, PAGE_SIZE};
use rdbms::recovery::{open_database, recover_page_file, DatabasePaths, RecoveryReport};
use rdbms::types::{DbError, DbResult, PageId, SlotId, TxId};
use rdbms::vfs::{MemVfs, MemVfsFile, PageFile, VfsFile};
use rdbms::wal::{WalRecordKind, WalWriter};

fn reopen_file(file: &MemVfsFile) -> MemVfsFile {
    MemVfsFile::from_bytes(file.contents().to_vec())
}

#[test]
fn open_scans_wal_redoes_committed_and_ignores_uncommitted() -> DbResult<()> {
    let committed_slot: SlotId;

    let mut page_file = PageFile::new(MemVfsFile::new());
    let mut old_page = Page::new(PageId(0), PageType::Heap);
    old_page.insert_record(b"old")?;
    page_file.write_page(&old_page)?;
    page_file.sync_data()?;
    let data = page_file.into_inner();

    let mut writer = WalWriter::new(MemVfsFile::new())?;
    let mut committed_page = Page::new(PageId(0), PageType::Heap);
    committed_slot = committed_page.insert_record(b"committed")?;
    let mut uncommitted_page = Page::new(PageId(1), PageType::Heap);
    uncommitted_page.insert_record(b"uncommitted")?;

    writer.append(WalRecordKind::BeginTx { tx_id: TxId(10) })?;
    writer.append(WalRecordKind::page_image(TxId(10), &committed_page)?)?;
    writer.append(WalRecordKind::CommitTx { tx_id: TxId(10) })?;
    writer.append(WalRecordKind::BeginTx { tx_id: TxId(20) })?;
    writer.append(WalRecordKind::page_image(TxId(20), &uncommitted_page)?)?;
    writer.sync_data()?;
    let wal = writer.into_inner();

    let recovered = recover_page_file(PageFile::new(data), wal)?;
    assert_eq!(
        recovered.recovery_report(),
        RecoveryReport {
            scanned_wal_records: 5,
            redone_page_images: 1,
        }
    );
    let page = recovered.page_file().read_page(PageId(0))?;
    assert_eq!(page.read_record(committed_slot)?, Some(&b"committed"[..]));
    Ok(())
}

#[test]
fn recovery_is_idempotent_for_committed_page_images() -> DbResult<()> {
    let committed_slot: SlotId;
    let mut writer = WalWriter::new(MemVfsFile::new())?;
    let mut page = Page::new(PageId(0), PageType::Heap);
    committed_slot = page.insert_record(b"stable after repeated recovery")?;
    writer.append(WalRecordKind::BeginTx { tx_id: TxId(30) })?;
    writer.append(WalRecordKind::page_image(TxId(30), &page)?)?;
    writer.append(WalRecordKind::CommitTx { tx_id: TxId(30) })?;
    writer.sync_data()?;
    let wal = writer.into_inner();

    let first = recover_page_file(PageFile::new(MemVfsFile::new()), reopen_file(&wal))?;
    assert_eq!(first.recovery_report().redone_page_images, 1);
    let data = first.into_page_file().into_inner();

    let second = recover_page_file(PageFile::new(reopen_file(&data)), reopen_file(&wal))?;
    assert_eq!(second.recovery_report().redone_page_images, 1);
    let page = second.page_file().read_page(PageId(0))?;
    assert_eq!(
        page.read_record(committed_slot)?,
        Some(&b"stable after repeated recovery"[..])
    );
    assert_eq!(second.into_page_file().into_inner().contents(), data.contents());
    Ok(())
}

#[test]
fn recovery_propagates_wal_corruption() -> DbResult<()> {
    let mut wal = MemVfsFile::new();
    wal.write_all_at(0, b"not a wal record")?;
    wal.sync_data()?;

    let error = recover_page_file(PageFile::new(MemVfsFile::new()), wal)
        .err()
        .ok_or(DbError::InternalInvariant("corrupt wal was accepted"))?;
    assert!(matches!(error, DbError::Corruption(_)));
    Ok(())
}

#[test]
fn empty_files_recover_to_an_empty_report() -> DbResult<()> {
    let paths = DatabasePaths::new("empty.dbonrs", "empty.wal");
    assert_eq!(paths.data_path(), "empty.dbonrs");
    assert_eq!(paths.wal_path(), "empty.wal");
    let recovered = open_database(&MemVfs, &paths)?;
    assert_eq!(
        recovered.recovery_report(),
        RecoveryReport {
            scanned_wal_records: 0,
            redone_page_images: 0,
        }
    );
    assert_eq!(recovered.into_page_file().into_inner().contents().len() % PAGE_SIZE, 0);
    Ok(())
}
