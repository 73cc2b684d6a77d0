use rdbms::page::{Page, PageType, PAGE_SIZE};
use rdbms::types::{DbError, PageId, SlotId};

#[test]
fn insert_and_read_records_by_slot_id() {
    let mut page = Page::new(PageId(7), PageType::Heap);

    let first = page.insert_record(b"alpha").expect("insert first record");
    let second = page.insert_record(b"beta").expect("insert second record");

    assert_eq!(page.read_record(first).expect("read first"), Some(&b"alpha"[..]));
    assert_eq!(page.read_record(second).expect("read second"), Some(&b"beta"[..]));
    assert_eq!(page.live_record_count().expect("count live"), 2);
    page.validate().expect("page remains valid");
}

#[test]
fn delete_hides_record_without_moving_other_slots() {
    let mut page = Page::new(PageId(8), PageType::Heap);

    let first = page.insert_record(b"alpha").expect("insert first");
    let second = page.insert_record(b"beta").expect("insert second");
    let third = page.insert_record(b"gamma").expect("insert third");

    assert!(page.delete_record(second).expect("delete second"));
    assert!(!page.delete_record(second).expect("delete second again"));

    assert_eq!(page.read_record(first).expect("read first"), Some(&b"alpha"[..]));
    assert_eq!(page.read_record(second).expect("read second"), None);
    assert_eq!(page.read_record(third).expect("read third"), Some(&b"gamma"[..]));
    assert_eq!(page.live_record_count().expect("count live"), 2);
    page.validate().expect("page remains valid");
}

#[test]
fn compact_preserves_live_slot_ids_and_payloads() {
    let mut page = Page::new(PageId(9), PageType::Heap);
    let mut live: Vec<(SlotId, Vec<u8>)> = Vec::new();

    for index in 0..40_u8 {
        let payload = vec![index; usize::from(index % 11 + 1)];
        let slot = page.insert_record(&payload).expect("insert record");
        live.push((slot, payload));
    }
    live.sort_by_key(|entry| entry.0);

    let slots: Vec<SlotId> = live.iter().map(|entry| entry.0).collect();
    for (position, slot) in slots.iter().enumerate() {
        if position % 3 == 0 {
            page.delete_record(*slot).expect("delete record");
            live.retain(|entry| entry.0 != *slot);
        }
    }

    let free_before = page.free_space().expect("free space before compact");
    page.compact().expect("compact page");
    let free_after = page.free_space().expect("free space after compact");

    assert!(free_after >= free_before);
    for (slot, payload) in live {
        assert_eq!(page.read_record(slot).expect("read after compact"), Some(&payload[..]));
    }
    page.validate().expect("page remains valid");
}

#[test]
fn checksum_detects_corruption() {
    let mut page = Page::new(PageId(10), PageType::Heap);
    page.insert_record(b"stable bytes").expect("insert record");
    page.validate().expect("valid before corruption");

    let mut bytes = page.as_bytes().to_vec();
    bytes[PAGE_SIZE - 1] ^= 0x55;

    let err = Page::from_bytes(bytes).expect_err("corruption must be detected");
    assert!(matches!(err, DbError::Corruption(_)));
}

#[test]
fn oversized_record_is_rejected() {
    let mut page = Page::new(PageId(11), PageType::Heap);
    let payload = vec![1_u8; PAGE_SIZE];

    let err = page
        .insert_record(&payload)
        .expect_err("oversized insert must fail");
    assert!(matches!(err, DbError::User(_)));
}

#[test]
fn deleted_slot_is_reused_by_the_next_insert() {
    let mut page = Page::new(PageId(12), PageType::Heap);
    let first = page.insert_record(b"one").unwrap();
    let second = page.insert_record(b"two").unwrap();
    assert!(page.delete_record(first).unwrap());
    let third = page.insert_record(b"three").unwrap();
    assert_eq!(third, first);
    assert_eq!(page.read_record(third).unwrap(), Some(&b"three"[..]));
    assert_eq!(page.read_record(second).unwrap(), Some(&b"two"[..]));
}

#[test]
fn reading_past_the_slot_directory_is_a_user_error() {
    let page = Page::new(PageId(13), PageType::Heap);
    let err = page.read_record(SlotId(0)).unwrap_err();
    assert!(matches!(err, DbError::User(_)));
}

#[test]
fn largest_record_fits_an_empty_page() {
    let mut page = Page::new(PageId(14), PageType::Heap);
    let payload = vec![7_u8; 4056];
    let slot = page.insert_record(&payload).unwrap();
    assert_eq!(page.read_record(slot).unwrap(), Some(&payload[..]));
    assert_eq!(page.free_space().unwrap(), 0);
    let mut other = Page::new(PageId(15), PageType::Heap);
    assert!(matches!(other.insert_record(&vec![7_u8; 4057]).unwrap_err(), DbError::User(_)));
}

#[test]
fn header_reports_identity_and_layout() {
    let page = Page::new(PageId(16), PageType::Index);
    let header = page.header().unwrap();
    assert_eq!(header.page_id, PageId(16));
    assert_eq!(header.page_type, PageType::Index);
    assert_eq!(header.slot_count, 0);
    assert_eq!(header.free_start, 34);
    assert_eq!(header.free_end, 4096);
}

#[test]
fn new_page_is_zero_after_its_header() {
    let page = Page::new(PageId(3), PageType::Index);
    assert!(page.as_bytes()[34..].iter().all(|b| *b == 0));
    assert_eq!(page.as_bytes(), Page::new(PageId(3), PageType::Index).as_bytes());
}
