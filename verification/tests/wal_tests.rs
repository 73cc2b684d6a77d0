use rdbms::page::{Page, PageType, PAGE_SIZE};
use rdbms::types::{DbError, DbResult, Lsn, PageId, TxId};
use rdbms::vfs::MemVfsFile;
use rdbms::wal::{
    decode_wal_stream, redo_committed_page_images, LsnAllocator, PageImageRedo, WalReader,
    WalRecord, WalRecordKind, WalWriter, WAL_HEADER_SIZE,
};

#[test]
fn wal_record_round_trips_through_binary_envelope() -> DbResult<()> {
    let mut page = Page::new(PageId(7), PageType::Heap);
    page.insert_record(b"wal image")?;
    let record = WalRecord {
        lsn: Lsn(128),
        kind: WalRecordKind::page_image(TxId(11), &page)?,
    };

    let bytes = record.encode()?;
    let decoded = WalRecord::decode(&bytes)?;

    assert_eq!(decoded, record);
    Ok(())
}

#[test]
fn lsn_allocator_uses_encoded_record_offsets() -> DbResult<()> {
    let mut allocator = LsnAllocator::new(Lsn(0));
    let first = allocator.allocate(WAL_HEADER_SIZE as u64)?;
    let second = allocator.allocate((WAL_HEADER_SIZE + PAGE_SIZE) as u64)?;

    assert_eq!(first, Lsn(0));
    assert_eq!(second, Lsn(WAL_HEADER_SIZE as u64));
    assert_eq!(
        allocator.next_lsn(),
        Lsn((WAL_HEADER_SIZE + WAL_HEADER_SIZE + PAGE_SIZE) as u64)
    );
    Ok(())
}

#[test]
fn writer_appends_and_reader_scans_commit_marker() -> DbResult<()> {
    let mut writer = WalWriter::new(MemVfsFile::new())?;
    assert_eq!(writer.append(WalRecordKind::BeginTx { tx_id: TxId(1) })?, Lsn(0));
    assert_eq!(
        writer.append(WalRecordKind::CommitTx { tx_id: TxId(1) })?,
        Lsn(WAL_HEADER_SIZE as u64)
    );
    writer.sync_data()?;

    let records = WalReader::new(writer.into_inner()).read_all()?;
    assert_eq!(
        records,
        vec![
            WalRecord {
                lsn: Lsn(0),
                kind: WalRecordKind::BeginTx { tx_id: TxId(1) },
            },
            WalRecord {
                lsn: Lsn(WAL_HEADER_SIZE as u64),
                kind: WalRecordKind::CommitTx { tx_id: TxId(1) },
            },
        ]
    );
    Ok(())
}

#[test]
fn reader_detects_truncated_wal_suffix() -> DbResult<()> {
    let mut writer = WalWriter::new(MemVfsFile::new())?;
    writer.append(WalRecordKind::BeginTx { tx_id: TxId(2) })?;
    let mut bytes = writer.into_inner().contents().to_vec();
    bytes.extend_from_slice(&[0_u8; 8]);

    let error = WalReader::new(MemVfsFile::from_bytes(bytes))
        .read_all()
        .err()
        .ok_or(DbError::InternalInvariant("truncated wal was accepted"))?;
    assert!(matches!(error, DbError::Corruption(message) if message.contains("truncated wal")));
    Ok(())
}

#[test]
fn redo_hook_replays_only_committed_page_images() -> DbResult<()> {
    let mut committed_page = Page::new(PageId(10), PageType::Heap);
    committed_page.insert_record(b"committed")?;
    let mut aborted_page = Page::new(PageId(11), PageType::Heap);
    aborted_page.insert_record(b"aborted")?;

    let records = vec![
        WalRecord {
            lsn: Lsn(0),
            kind: WalRecordKind::BeginTx { tx_id: TxId(1) },
        },
        WalRecord {
            lsn: Lsn(40),
            kind: WalRecordKind::page_image(TxId(1), &committed_page)?,
        },
        WalRecord {
            lsn: Lsn(4176),
            kind: WalRecordKind::CommitTx { tx_id: TxId(1) },
        },
        WalRecord {
            lsn: Lsn(4216),
            kind: WalRecordKind::BeginTx { tx_id: TxId(2) },
        },
        WalRecord {
            lsn: Lsn(4256),
            kind: WalRecordKind::page_image(TxId(2), &aborted_page)?,
        },
        WalRecord {
            lsn: Lsn(8392),
            kind: WalRecordKind::AbortTx { tx_id: TxId(2) },
        },
    ];
    let mut sink = VecRedo::default();

    redo_committed_page_images(&records, &mut sink)?;

    assert_eq!(sink.redone.len(), 1);
    assert_eq!(sink.redone[0], (Lsn(40), TxId(1), PageId(10)));
    Ok(())
}

#[derive(Default)]
struct VecRedo {
    redone: Vec<(Lsn, TxId, PageId)>,
}

impl PageImageRedo for VecRedo {
    fn redo_page_image(
        &mut self,
        lsn: Lsn,
        tx_id: TxId,
        page_id: PageId,
        image: &[u8],
    ) -> DbResult<()> {
        assert_eq!(image.len(), PAGE_SIZE);
        self.redone.push((lsn, tx_id, page_id));
        Ok(())
    }
}

#[test]
fn stream_of_appended_records_decodes_in_order() -> DbResult<()> {
    let mut writer = WalWriter::new(MemVfsFile::new())?;
    let mut page = Page::new(PageId(3), PageType::Heap);
    page.insert_record(b"x")?;
    writer.append(WalRecordKind::BeginTx { tx_id: TxId(5) })?;
    let image_lsn = writer.append(WalRecordKind::page_image(TxId(5), &page)?)?;
    writer.append(WalRecordKind::CommitTx { tx_id: TxId(5) })?;
    assert_eq!(image_lsn, Lsn(40));
    assert_eq!(writer.next_lsn(), Lsn(40 + 40 + 4096 + 40));
    let bytes = writer.into_inner().contents().to_vec();
    let records = decode_wal_stream(&bytes)?;
    assert_eq!(records.len(), 3);
    assert_eq!(records[1].lsn, Lsn(40));
    assert_eq!(records[2].kind, WalRecordKind::CommitTx { tx_id: TxId(5) });
    Ok(())
}

#[test]
fn corrupted_record_checksum_is_rejected() -> DbResult<()> {
    let record = WalRecord { lsn: Lsn(0), kind: WalRecordKind::Checkpoint };
    let mut bytes = record.encode()?;
    assert_eq!(bytes.len(), 40);
    bytes[10] ^= 1;
    assert!(matches!(WalRecord::decode(&bytes).unwrap_err(), DbError::Corruption(_)));
    Ok(())
}

#[test]
fn unknown_transaction_images_are_not_redone() -> DbResult<()> {
    let mut page = Page::new(PageId(4), PageType::Heap);
    page.insert_record(b"dangling")?;
    let records = vec![WalRecord { lsn: Lsn(0), kind: WalRecordKind::page_image(TxId(9), &page)? }];
    let mut sink = VecRedo::default();
    redo_committed_page_images(&records, &mut sink)?;
    assert!(sink.redone.is_empty());
    Ok(())
}

#[test]
fn redo_stops_with_corruption_at_an_inconsistent_committed_image() -> DbResult<()> {
    let mut good = Page::new(PageId(10), PageType::Heap);
    good.insert_record(b"good")?;
    let mut other = Page::new(PageId(12), PageType::Heap);
    other.insert_record(b"labelled elsewhere")?;
    let mismatched = match WalRecordKind::page_image(TxId(1), &other)? {
        WalRecordKind::PageImage { tx_id, image, .. } => WalRecordKind::PageImage { tx_id, page_id: PageId(11), image },
        _ => return Err(DbError::InternalInvariant("page image constructor changed kind")),
    };
    let records = vec![
        WalRecord { lsn: Lsn(0), kind: WalRecordKind::page_image(TxId(1), &good)? },
        WalRecord { lsn: Lsn(4136), kind: mismatched },
        WalRecord { lsn: Lsn(8272), kind: WalRecordKind::CommitTx { tx_id: TxId(1) } },
    ];
    let mut sink = VecRedo::default();
    let error = redo_committed_page_images(&records, &mut sink).unwrap_err();
    assert!(matches!(error, DbError::Corruption(_)));
    assert_eq!(sink.redone, vec![(Lsn(0), TxId(1), PageId(10))]);
    Ok(())
}

#[test]
fn cut_short_or_extended_record_is_refused() -> DbResult<()> {
    let record = WalRecord { lsn: Lsn(0), kind: WalRecordKind::CommitTx { tx_id: TxId(3) } };
    let bytes = record.encode()?;
    assert!(matches!(WalRecord::decode(&bytes[..bytes.len() - 1]).unwrap_err(), DbError::Corruption(_)));
    let mut longer = bytes.clone();
    longer.push(0);
    assert!(matches!(WalRecord::decode(&longer).unwrap_err(), DbError::Corruption(_)));
    let mut damaged = bytes.clone();
    damaged[37] ^= 0x10;
    assert!(matches!(WalRecord::decode(&damaged).unwrap_err(), DbError::Corruption(_)));
    Ok(())
}
