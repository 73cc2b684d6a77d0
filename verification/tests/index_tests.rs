use rdbms::index::{
    child_index_for_key, compare_keys, decode_node, encode_node, initialize_root, insert,
    insert_leaf_entry, lookup, node_from_page, node_to_page, BPlusTreePageStore, BTreeNode,
    IndexEntry, IndexKey, KeyOrder,
};
use rdbms::page::Page;
use rdbms::types::{DbError, DbResult, PageId, RowId, SlotId};
use std::collections::BTreeMap;

struct MemoryStore {
    pages: BTreeMap<PageId, Page>,
    next_page_id: u64,
}

impl MemoryStore {
    fn new() -> Self {
        Self {
            pages: BTreeMap::new(),
            next_page_id: 2,
        }
    }
}

impl BPlusTreePageStore for MemoryStore {
    fn load_page(&mut self, page_id: PageId) -> DbResult<Page> {
        self.pages
            .get(&page_id)
            .map(|page| page.duplicate())
            .ok_or(DbError::InternalInvariant("missing memory page"))
    }

    fn store_page(&mut self, page: Page) -> DbResult<()> {
        let page_id = page.header()?.page_id;
        self.pages.insert(page_id, page);
        Ok(())
    }

    fn allocate_page(&mut self) -> DbResult<PageId> {
        let page_id = PageId(self.next_page_id);
        self.next_page_id += 1;
        Ok(page_id)
    }
}

#[test]
fn inserts_splits_and_finds_integer_keys() -> DbResult<()> {
    let mut store = MemoryStore::new();
    let mut root = PageId(1);
    initialize_root(&mut store, root)?;

    for value in 0..24_i64 {
        root = insert(
            &mut store,
            root,
            IndexKey::Integer(value % 6),
            RowId {
                page_id: PageId(100 + value as u64),
                slot_id: SlotId(value as u16),
            },
        )?;
    }

    let matches = lookup(&mut store, root, &IndexKey::Integer(3))?;
    assert_eq!(matches.len(), 4);
    assert!(matches.iter().all(|row_id| row_id.slot_id.0 % 6 == 3));
    Ok(())
}

#[test]
fn supports_text_keys() -> DbResult<()> {
    let mut store = MemoryStore::new();
    let mut root = PageId(1);
    initialize_root(&mut store, root)?;

    for (index, name) in ["ada", "linus", "ada", "grace", "ada"].iter().enumerate() {
        root = insert(
            &mut store,
            root,
            IndexKey::Text((*name).to_string()),
            RowId {
                page_id: PageId(10),
                slot_id: SlotId(index as u16),
            },
        )?;
    }

    let matches = lookup(&mut store, root, &IndexKey::Text("ada".to_string()))?;
    assert_eq!(matches.len(), 3);
    Ok(())
}

fn row(page: u64, slot: u16) -> RowId {
    RowId { page_id: PageId(page), slot_id: SlotId(slot) }
}

#[test]
fn keys_order_integers_before_text_and_text_by_bytes() {
    assert_eq!(compare_keys(&IndexKey::Integer(-5), &IndexKey::Integer(3)), KeyOrder::Less);
    assert_eq!(compare_keys(&IndexKey::Integer(7), &IndexKey::Integer(7)), KeyOrder::Equal);
    assert_eq!(compare_keys(&IndexKey::Integer(i64::MAX), &IndexKey::Text(String::new())), KeyOrder::Less);
    assert_eq!(
        compare_keys(&IndexKey::Text("abc".to_string()), &IndexKey::Text("ab".to_string())),
        KeyOrder::Greater
    );
    assert_eq!(
        compare_keys(&IndexKey::Text("abd".to_string()), &IndexKey::Text("abz".to_string())),
        KeyOrder::Less
    );
}

#[test]
fn leaf_insert_keeps_entries_sorted_by_key_then_row() {
    let mut entries: Vec<IndexEntry> = Vec::new();
    insert_leaf_entry(&mut entries, IndexKey::Integer(5), row(1, 0));
    insert_leaf_entry(&mut entries, IndexKey::Integer(2), row(1, 1));
    insert_leaf_entry(&mut entries, IndexKey::Integer(5), row(0, 9));
    insert_leaf_entry(&mut entries, IndexKey::Text("a".to_string()), row(0, 0));
    let keys: Vec<(IndexKey, RowId)> = entries.iter().map(|e| (e.key.clone(), e.row_id)).collect();
    assert_eq!(
        keys,
        vec![
            (IndexKey::Integer(2), row(1, 1)),
            (IndexKey::Integer(5), row(0, 9)),
            (IndexKey::Integer(5), row(1, 0)),
            (IndexKey::Text("a".to_string()), row(0, 0)),
        ]
    );
}

#[test]
fn child_index_counts_separators_below_the_key() {
    let keys = vec![IndexKey::Integer(10), IndexKey::Integer(20)];
    assert_eq!(child_index_for_key(&keys, &IndexKey::Integer(5)), 0);
    assert_eq!(child_index_for_key(&keys, &IndexKey::Integer(10)), 0);
    assert_eq!(child_index_for_key(&keys, &IndexKey::Integer(15)), 1);
    assert_eq!(child_index_for_key(&keys, &IndexKey::Integer(25)), 2);
}

#[test]
fn nodes_round_trip_through_their_pages() -> DbResult<()> {
    let leaf = BTreeNode::Leaf {
        next_leaf: Some(PageId(9)),
        entries: vec![IndexEntry { key: IndexKey::Text("grace".to_string()), row_id: row(3, 4) }],
    };
    let bytes = encode_node(&leaf)?;
    assert_eq!(&bytes[0..4], b"RDBI");
    assert_eq!(decode_node(&bytes)?, leaf);
    let page = node_to_page(PageId(5), &leaf)?;
    assert_eq!(node_from_page(&page)?, leaf);

    let internal = BTreeNode::Internal {
        keys: vec![IndexKey::Integer(-1)],
        children: vec![PageId(2), PageId(3)],
    };
    assert_eq!(decode_node(&encode_node(&internal)?)?, internal);
    Ok(())
}

#[test]
fn malformed_internal_node_is_refused() {
    let bad = BTreeNode::Internal { keys: vec![IndexKey::Integer(1)], children: vec![PageId(2)] };
    assert!(matches!(encode_node(&bad).unwrap_err(), DbError::Corruption(_)));
    assert!(matches!(decode_node(b"RDBX").unwrap_err(), DbError::Corruption(_)));
}

#[test]
fn lookup_of_an_absent_key_is_empty() -> DbResult<()> {
    let mut store = MemoryStore::new();
    let mut root = PageId(1);
    initialize_root(&mut store, root)?;
    for value in 0..10_i64 {
        root = insert(&mut store, root, IndexKey::Integer(value * 2), row(1, value as u16))?;
    }
    assert!(lookup(&mut store, root, &IndexKey::Integer(7))?.is_empty());
    assert_eq!(lookup(&mut store, root, &IndexKey::Integer(18))?, vec![row(1, 9)]);
    Ok(())
}

#[test]
fn fifth_entry_splits_the_leaf_root_under_a_new_root() -> DbResult<()> {
    let mut store = MemoryStore::new();
    initialize_root(&mut store, PageId(1))?;
    for value in 0..4_i64 {
        let root = insert(
            &mut store,
            PageId(1),
            IndexKey::Integer(value),
            RowId { page_id: PageId(100), slot_id: SlotId(value as u16) },
        )?;
        assert_eq!(root, PageId(1));
    }
    let root = insert(
        &mut store,
        PageId(1),
        IndexKey::Integer(4),
        RowId { page_id: PageId(100), slot_id: SlotId(4) },
    )?;
    assert_eq!(root, PageId(3));

    let node = |store: &mut MemoryStore, id: u64| -> DbResult<BTreeNode> {
        let page = store.load_page(PageId(id))?;
        node_from_page(&page)
    };
    let keys_of = |entries: &Vec<IndexEntry>| -> Vec<IndexKey> {
        entries.iter().map(|entry| entry.key.clone()).collect()
    };
    assert_eq!(
        node(&mut store, 3)?,
        BTreeNode::Internal { keys: vec![IndexKey::Integer(2)], children: vec![PageId(1), PageId(2)] }
    );
    match node(&mut store, 1)? {
        BTreeNode::Leaf { next_leaf, entries } => {
            assert_eq!(next_leaf, Some(PageId(2)));
            assert_eq!(keys_of(&entries), vec![IndexKey::Integer(0), IndexKey::Integer(1)]);
        }
        other => panic!("left page is not a leaf: {other:?}"),
    }
    match node(&mut store, 2)? {
        BTreeNode::Leaf { next_leaf, entries } => {
            assert_eq!(next_leaf, None);
            assert_eq!(
                keys_of(&entries),
                vec![IndexKey::Integer(2), IndexKey::Integer(3), IndexKey::Integer(4)]
            );
        }
        other => panic!("right page is not a leaf: {other:?}"),
    }
    Ok(())
}

#[test]
fn insert_over_a_missing_root_fails() {
    let mut store = MemoryStore::new();
    let result = insert(
        &mut store,
        PageId(1),
        IndexKey::Integer(1),
        RowId { page_id: PageId(100), slot_id: SlotId(0) },
    );
    assert!(result.is_err());
}
