use rdbms::page::{Page, PageType, PAGE_SIZE};
use rdbms::types::{DbError, DbResult, PageId, SlotId};
use rdbms::vfs::{open_page_file, page_offset, MemVfs, MemVfsFile, PageFile, VfsFile};

#[test]
fn std_vfs_writes_reads_and_reopens_page() -> DbResult<()> {
    let slot_id: SlotId;
    let file;
    {
        let vfs = MemVfs;
        let mut page_file = open_page_file(&vfs, "reopen")?;
        let mut page = Page::new(PageId(0), PageType::Heap);
        slot_id = page.insert_record(b"record survives reopen")?;
        page_file.write_page(&page)?;
        page_file.sync_data()?;
        file = page_file.into_inner();
    }
    {
        let page_file = PageFile::new(MemVfsFile::from_bytes(file.contents().to_vec()));
        let page = page_file.read_page(PageId(0))?;
        assert_eq!(page.read_record(slot_id)?, Some(&b"record survives reopen"[..]));
    }
    Ok(())
}

#[test]
fn corrupt_page_is_detected_after_reopen() -> DbResult<()> {
    let mut page_file = open_page_file(&MemVfs, "corrupt")?;
    let mut page = Page::new(PageId(1), PageType::Heap);
    page.insert_record(b"checksum protected payload")?;
    page_file.write_page(&page)?;
    page_file.sync_data()?;

    let mut file = page_file.into_inner();
    file.write_all_at(PAGE_SIZE as u64 + 128, &[0xA5])?;
    file.sync_data()?;

    let page_file = PageFile::new(file);
    let error = page_file
        .read_page(PageId(1))
        .err()
        .ok_or(DbError::InternalInvariant("corrupt page was accepted"))?;
    assert!(matches!(error, DbError::Corruption(_)));
    Ok(())
}

#[test]
fn page_offsets_are_page_aligned_and_reads_past_the_end_fail() -> DbResult<()> {
    assert_eq!(page_offset(PageId(0))?, 0);
    assert_eq!(page_offset(PageId(3))?, 3 * PAGE_SIZE as u64);
    assert!(page_offset(PageId(u64::MAX)).is_err());

    let page_file = PageFile::new(MemVfsFile::new());
    assert!(matches!(page_file.read_page(PageId(0)), Err(DbError::Io(_))));
    Ok(())
}

#[test]
fn memory_file_reads_what_was_written() -> DbResult<()> {
    let mut file = MemVfsFile::new();
    file.write_all_at(4, b"abc")?;
    assert_eq!(file.contents(), &[0, 0, 0, 0, b'a', b'b', b'c']);
    assert_eq!(file.len()?, 7);
    let mut buf = [0u8; 2];
    file.read_exact_at(5, &mut buf)?;
    assert_eq!(&buf, b"bc");
    assert!(file.read_exact_at(6, &mut buf).is_err());
    Ok(())
}
