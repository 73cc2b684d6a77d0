//! Persistent B+Tree index.
//!
//! Nodes are stored as ordinary index pages with one encoded node record in
//! slot 0. The tree supports equality lookup and insert of `(key, RowId)`
//! pairs. There is no delete, no uniqueness enforcement and no visibility
//! logic.
//!
//! Node record layout:
//!
//! ```text
//! magic "RDBI" | version u16 | kind u8 (1 leaf, 2 internal) | payload
//! leaf:     has_next u8 | next_leaf u64 | count u16 | (key, page u64, slot u16)...
//! internal: key count u16 | keys... | child count u16 | child page u64...
//! key:      1 | i64   or   2 | length-prefixed UTF-8 text
//! ```

use vstd::prelude::*;
use vstd::utf8::{encode_utf8, encode_utf8_decode_utf8};
use crate::bytes::{le16_bytes, le32_bytes, le64_bytes, lemma_le16_bytes, lemma_le32_bytes,
    lemma_le64_bytes, push_u16, push_u32, push_u64};
use crate::codec::{p_u8, p_u16, p_u32, p_u64, p_string, e_string, string_encodable, DecodeCursor,
    push_string, lemma_sub_split, lemma_p_u8_at, lemma_p_u16_at, lemma_p_u32_at, lemma_p_u64_at,
    lemma_p_string_at};
use crate::listcodec::{e_list, pr_list, prepend, lemma_e_list_push, lemma_prepend_step,
    lemma_pr_list_at};
use crate::page::{Page, PageType, PAGE_SIZE, page_valid, header_ok, spec_header, raw_slot_count,
    slot_live, slot_record, slot_offset_of, slot_len_of, first_dead};
use crate::catalog::MAX_PAGE_RECORD;
use crate::types::{DbError, DbResult, PageId, RowId, SlotId, user_error, corruption};
use crate::catalog::{enc_page, pf_page, page_ids_view, read_pages};

verus! {

/// Maximum keys per B+Tree node. Deliberately small so that splits happen early.
pub const MAX_KEYS: usize = 4;
/// Deepest tree that descent follows before reporting corruption.
pub const MAX_DEPTH: u32 = 64;

/// "RDBI" read as a little-endian `u32`.
pub const INDEX_NODE_MAGIC: u32 = 0x4942_4452;
pub const INDEX_NODE_VERSION: u16 = 1;
pub const NODE_LEAF: u8 = 1;
pub const NODE_INTERNAL: u8 = 2;
pub const KEY_INTEGER: u8 = 1;
pub const KEY_TEXT: u8 = 2;

/// Ordered key supported by the index.
#[derive(Clone, Debug, PartialEq, Eq, PartialOrd, Ord)]
pub enum IndexKey {
    /// Signed integer key.
    Integer(i64),
    /// UTF-8 text key.
    Text(String),
}

pub enum KeyView {
    Integer(i64),
    Text(Seq<char>),
}

impl View for IndexKey {
    type V = KeyView;

    open spec fn view(&self) -> KeyView {
        match self {
            IndexKey::Integer(v) => KeyView::Integer(*v),
            IndexKey::Text(s) => KeyView::Text(s@),
        }
    }
}

/// One leaf entry: key plus physical row address.
#[derive(Clone, Debug, PartialEq, Eq)]
pub struct IndexEntry {
    /// Indexed key.
    pub key: IndexKey,
    /// Heap row referenced by this key.
    pub row_id: RowId,
}

pub struct EntryView {
    pub key: KeyView,
    pub row_id: RowId,
}

impl View for IndexEntry {
    type V = EntryView;

    open spec fn view(&self) -> EntryView {
        EntryView { key: self.key@, row_id: self.row_id }
    }
}

pub open spec fn entries_view(v: Seq<IndexEntry>) -> Seq<EntryView> {
    v.map_values(|e: IndexEntry| e@)
}

pub open spec fn keys_view(v: Seq<IndexKey>) -> Seq<KeyView> {
    v.map_values(|k: IndexKey| k@)
}

// ---------------------------------------------------------------------------
// Key order: integers before text; integers by value; text by its UTF-8 bytes.

/// Lexicographic order on byte strings.
pub open spec fn bytes_lt(a: Seq<u8>, b: Seq<u8>) -> bool
    decreases a.len(),
{
    if a.len() == 0 {
        b.len() > 0
    } else if b.len() == 0 {
        false
    } else if a[0] != b[0] {
        a[0] < b[0]
    } else {
        bytes_lt(a.drop_first(), b.drop_first())
    }
}

pub open spec fn key_lt(a: KeyView, b: KeyView) -> bool {
    match (a, b) {
        (KeyView::Integer(x), KeyView::Integer(y)) => x < y,
        (KeyView::Integer(_), KeyView::Text(_)) => true,
        (KeyView::Text(_), KeyView::Integer(_)) => false,
        (KeyView::Text(s), KeyView::Text(t)) => bytes_lt(encode_utf8(s), encode_utf8(t)),
    }
}

pub open spec fn row_lt(a: RowId, b: RowId) -> bool {
    a.page_id.0 < b.page_id.0 || (a.page_id.0 == b.page_id.0 && a.slot_id.0 < b.slot_id.0)
}

/// Entries are ordered by key, then by row id.
pub open spec fn entry_lt(a: EntryView, b: EntryView) -> bool {
    key_lt(a.key, b.key) || (a.key == b.key && row_lt(a.row_id, b.row_id))
}

/// Neighbouring entries are in order.
pub open spec fn entries_sorted(s: Seq<EntryView>) -> bool {
    forall|i: int| 0 <= i < s.len() - 1 ==> !#[trigger] entry_lt(s[i + 1], s[i])
}

/// Two byte strings neither below the other are equal.
pub proof fn lemma_bytes_total(a: Seq<u8>, b: Seq<u8>)
    ensures
        !bytes_lt(a, b) && !bytes_lt(b, a) ==> a == b,
        !(bytes_lt(a, b) && bytes_lt(b, a)),
    decreases a.len(),
{
    if a.len() > 0 && b.len() > 0 && a[0] == b[0] {
        lemma_bytes_total(a.drop_first(), b.drop_first());
        if a.drop_first() == b.drop_first() {
            assert(a =~= seq![a[0]] + a.drop_first());
            assert(b =~= seq![b[0]] + b.drop_first());
        }
    } else if a.len() == 0 && b.len() == 0 {
        assert(a =~= b);
    }
}

/// Keys are totally ordered.
pub proof fn lemma_key_total(a: KeyView, b: KeyView)
    ensures
        !key_lt(a, b) && !key_lt(b, a) ==> a == b,
        !(key_lt(a, b) && key_lt(b, a)),
{
    if let (KeyView::Text(s), KeyView::Text(t)) = (a, b) {
        lemma_bytes_total(encode_utf8(s), encode_utf8(t));
        encode_utf8_decode_utf8(s);
        encode_utf8_decode_utf8(t);
    }
}

/// Entries are totally ordered.
pub proof fn lemma_entry_total(a: EntryView, b: EntryView)
    ensures
        !entry_lt(a, b) && !entry_lt(b, a) ==> a == b,
        !(entry_lt(a, b) && entry_lt(b, a)),
{
    lemma_key_total(a.key, b.key);
}

/// Outcome of comparing two keys.
#[derive(Clone, Copy, Debug, PartialEq, Eq, Structural)]
pub enum KeyOrder {
    Less,
    Equal,
    Greater,
}

fn compare_bytes(a: &[u8], b: &[u8]) -> (r: KeyOrder)
    ensures
        r == KeyOrder::Less <==> bytes_lt(a@, b@),
        r == KeyOrder::Equal <==> a@ == b@,
        r == KeyOrder::Greater <==> bytes_lt(b@, a@),
{
    proof {
        lemma_bytes_total(a@, b@);
    }
    assert(a@.subrange(0, a@.len() as int) =~= a@);
    assert(b@.subrange(0, b@.len() as int) =~= b@);
    let mut i: usize = 0;
    while i < a.len() && i < b.len()
        invariant
            i <= a@.len(),
            i <= b@.len(),
            forall|j: int| 0 <= j < i ==> a@[j] == b@[j],
            bytes_lt(a@, b@) == bytes_lt(a@.subrange(i as int, a@.len() as int), b@.subrange(i as int, b@.len() as int)),
            bytes_lt(b@, a@) == bytes_lt(b@.subrange(i as int, b@.len() as int), a@.subrange(i as int, a@.len() as int)),
        decreases a@.len() - i,
    {
        let x = a[i];
        let y = b[i];
        let ghost sa = a@.subrange(i as int, a@.len() as int);
        let ghost sb = b@.subrange(i as int, b@.len() as int);
        assert(sa[0] == x && sb[0] == y);
        if x < y {
            return KeyOrder::Less;
        }
        if y < x {
            return KeyOrder::Greater;
        }
        assert(sa.drop_first() =~= a@.subrange(i + 1, a@.len() as int));
        assert(sb.drop_first() =~= b@.subrange(i + 1, b@.len() as int));
        i = i + 1;
    }
    let ghost sa = a@.subrange(i as int, a@.len() as int);
    let ghost sb = b@.subrange(i as int, b@.len() as int);
    if a.len() == b.len() {
        assert(a@ =~= b@);
        KeyOrder::Equal
    } else if a.len() < b.len() {
        assert(sa.len() == 0 && sb.len() > 0);
        KeyOrder::Less
    } else {
        assert(sb.len() == 0 && sa.len() > 0);
        KeyOrder::Greater
    }
}

/// Compare two keys in index order.
pub fn compare_keys(a: &IndexKey, b: &IndexKey) -> (r: KeyOrder)
    ensures
        r == KeyOrder::Less <==> key_lt(a@, b@),
        r == KeyOrder::Equal <==> a@ == b@,
        r == KeyOrder::Greater <==> key_lt(b@, a@),
{
    proof {
        lemma_key_total(a@, b@);
    }
    match (a, b) {
        (IndexKey::Integer(x), IndexKey::Integer(y)) => {
            if *x < *y {
                KeyOrder::Less
            } else if *x == *y {
                KeyOrder::Equal
            } else {
                KeyOrder::Greater
            }
        },
        (IndexKey::Integer(_), IndexKey::Text(_)) => KeyOrder::Less,
        (IndexKey::Text(_), IndexKey::Integer(_)) => KeyOrder::Greater,
        (IndexKey::Text(s), IndexKey::Text(t)) => {
            let r = compare_bytes(s.as_str().as_bytes(), t.as_str().as_bytes());
            proof {
                encode_utf8_decode_utf8(s@);
                encode_utf8_decode_utf8(t@);
            }
            r
        },
    }
}

fn entry_less(a: &IndexEntry, b: &IndexEntry) -> (r: bool)
    ensures
        r == entry_lt(a@, b@),
{
    match compare_keys(&a.key, &b.key) {
        KeyOrder::Less => true,
        KeyOrder::Greater => false,
        KeyOrder::Equal => {
            a.row_id.page_id.0 < b.row_id.page_id.0 || (a.row_id.page_id.0 == b.row_id.page_id.0
                && a.row_id.slot_id.0 < b.row_id.slot_id.0)
        },
    }
}

fn leaf_position(entries: &Vec<IndexEntry>, entry: &IndexEntry) -> (pos: usize)
    ensures
        pos <= entries@.len(),
        forall|i: int| 0 <= i < pos ==> #[trigger] entry_lt(entries_view(entries@)[i], entry@),
        pos < entries@.len() ==> !entry_lt(entries_view(entries@)[pos as int], entry@),
{
    let mut position: usize = 0;
    while position < entries.len()
        invariant
            position <= entries@.len(),
            forall|i: int| 0 <= i < position ==> #[trigger] entry_lt(entries_view(entries@)[i], entry@),
        decreases entries@.len() - position,
    {
        if !entry_less(&entries[position], entry) {
            return position;
        }
        position = position + 1;
    }
    position
}

/// Insert an entry before the first entry that is not below it.
pub fn insert_leaf_entry(entries: &mut Vec<IndexEntry>, key: IndexKey, row_id: RowId)
    ensures
        exists|pos: int| {
            &&& 0 <= pos <= old(entries)@.len()
            &&& entries_view(final(entries)@) == entries_view(old(entries)@).insert(pos, EntryView { key: key@, row_id })
            &&& forall|i: int| 0 <= i < pos ==> #[trigger] entry_lt(entries_view(old(entries)@)[i], EntryView { key: key@, row_id })
            &&& pos < old(entries)@.len() ==> !entry_lt(entries_view(old(entries)@)[pos], EntryView { key: key@, row_id })
        },
        entries_sorted(entries_view(old(entries)@)) ==> entries_sorted(entries_view(final(entries)@)),
{
    let ghost old_view = entries_view(entries@);
    let entry = IndexEntry { key, row_id };
    let ghost x = entry@;
    let position = leaf_position(entries, &entry);
    let ghost pos = position as int;
    entries.insert(position, entry);
    proof {
        let nv = entries_view(entries@);
        assert(nv =~= old_view.insert(pos, x));
        if entries_sorted(old_view) {
            assert forall|i: int| 0 <= i < nv.len() - 1 implies !#[trigger] entry_lt(nv[i + 1], nv[i]) by {
                if i + 1 < pos {
                    assert(nv[i] == old_view[i] && nv[i + 1] == old_view[i + 1]);
                    assert(!entry_lt(old_view[i + 1], old_view[i]));
                } else if i + 1 == pos {
                    lemma_entry_total(nv[i + 1], nv[i]);
                } else if i == pos {
                    lemma_entry_total(nv[i + 1], nv[i]);
                } else {
                    let k = i - 1;
                    assert(nv[i] == old_view[k] && nv[i + 1] == old_view[k + 1]);
                    assert(!entry_lt(old_view[k + 1], old_view[k]));
                }
            }
        }
    }
}

/// Index of the child subtree of an internal node that covers `key`: the
/// number of leading separators strictly below `key`.
pub fn child_index_for_key(keys: &Vec<IndexKey>, key: &IndexKey) -> (r: usize)
    ensures
        r <= keys@.len(),
        forall|i: int| 0 <= i < r ==> #[trigger] key_lt(keys_view(keys@)[i], key@),
        r < keys@.len() ==> !key_lt(keys_view(keys@)[r as int], key@),
{
    let mut i: usize = 0;
    while i < keys.len()
        invariant
            i <= keys@.len(),
            forall|j: int| 0 <= j < i ==> #[trigger] key_lt(keys_view(keys@)[j], key@),
        decreases keys@.len() - i,
    {
        match compare_keys(key, &keys[i]) {
            KeyOrder::Greater => {},
            _ => {
                return i;
            },
        }
        i = i + 1;
    }
    i
}

// ---------------------------------------------------------------------------
// Nodes and their record format.

/// A B+Tree node as stored in one index page.
#[derive(Clone, Debug, PartialEq, Eq)]
pub enum BTreeNode {
    /// Leaf: sorted entries and the next leaf to the right.
    Leaf { next_leaf: Option<PageId>, entries: Vec<IndexEntry> },
    /// Internal node: separators and one more child than separators.
    Internal { keys: Vec<IndexKey>, children: Vec<PageId> },
}

pub enum NodeView {
    Leaf { next_leaf: Option<u64>, entries: Seq<EntryView> },
    Internal { keys: Seq<KeyView>, children: Seq<u64> },
}

impl View for BTreeNode {
    type V = NodeView;

    open spec fn view(&self) -> NodeView {
        match self {
            BTreeNode::Leaf { next_leaf, entries } => NodeView::Leaf {
                next_leaf: match next_leaf {
                    Some(p) => Some(p.0),
                    None => None,
                },
                entries: entries_view(entries@),
            },
            BTreeNode::Internal { keys, children } => NodeView::Internal {
                keys: keys_view(keys@),
                children: page_ids_view(children@),
            },
        }
    }
}

pub open spec fn e_key(k: KeyView) -> Seq<u8> {
    match k {
        KeyView::Integer(v) => seq![KEY_INTEGER] + le64_bytes(v as u64),
        KeyView::Text(s) => seq![KEY_TEXT] + e_string(s),
    }
}

pub open spec fn key_encodable(k: KeyView) -> bool {
    match k {
        KeyView::Integer(_) => true,
        KeyView::Text(s) => string_encodable(s),
    }
}

pub open spec fn enc_key() -> spec_fn(KeyView) -> Seq<u8> {
    |k: KeyView| e_key(k)
}

pub open spec fn e_entry(e: EntryView) -> Seq<u8> {
    e_key(e.key) + le64_bytes(e.row_id.page_id.0) + le16_bytes(e.row_id.slot_id.0)
}

pub open spec fn enc_entry() -> spec_fn(EntryView) -> Seq<u8> {
    |e: EntryView| e_entry(e)
}

pub open spec fn e_next(n: Option<u64>) -> Seq<u8> {
    match n {
        Some(p) => seq![1u8] + le64_bytes(p),
        None => seq![0u8] + le64_bytes(0),
    }
}

/// The node record.
pub open spec fn e_node(n: NodeView) -> Seq<u8> {
    le32_bytes(INDEX_NODE_MAGIC) + le16_bytes(INDEX_NODE_VERSION) + match n {
        NodeView::Leaf { next_leaf, entries } => seq![NODE_LEAF] + e_next(next_leaf) + le16_bytes(
            entries.len() as u16,
        ) + e_list(entries, enc_entry()),
        NodeView::Internal { keys, children } => seq![NODE_INTERNAL] + le16_bytes(keys.len() as u16)
            + e_list(keys, enc_key()) + le16_bytes(children.len() as u16) + e_list(children, enc_page()),
    }
}

/// An internal node has one more child than separators.
pub open spec fn node_shape_ok(n: NodeView) -> bool {
    match n {
        NodeView::Leaf { .. } => true,
        NodeView::Internal { keys, children } => children.len() == keys.len() + 1,
    }
}

/// Every count and text key of the node fits its length field.
pub open spec fn node_encodable(n: NodeView) -> bool {
    match n {
        NodeView::Leaf { entries, .. } => entries.len() <= u16::MAX && forall|i: int|
            0 <= i < entries.len() ==> #[trigger] key_encodable(entries[i].key),
        NodeView::Internal { keys, children } => keys.len() <= u16::MAX && children.len() <= u16::MAX
            && forall|i: int| 0 <= i < keys.len() ==> #[trigger] key_encodable(keys[i]),
    }
}

pub open spec fn pr_key(b: Seq<u8>, pos: int) -> Option<(KeyView, int)> {
    match p_u8(b, pos) {
        None => None,
        Some((tag, p)) => if tag == KEY_INTEGER {
            match p_u64(b, p) {
                None => None,
                Some((v, q)) => Some((KeyView::Integer(v as i64), q)),
            }
        } else if tag == KEY_TEXT {
            match p_string(b, p) {
                None => None,
                Some((s, q)) => Some((KeyView::Text(s), q)),
            }
        } else {
            None
        },
    }
}

pub open spec fn pf_key() -> spec_fn(Seq<u8>, int) -> Option<(KeyView, int)> {
    |b: Seq<u8>, pos: int| pr_key(b, pos)
}

pub open spec fn pr_entry(b: Seq<u8>, pos: int) -> Option<(EntryView, int)> {
    match pr_key(b, pos) {
        None => None,
        Some((key, p)) => match p_u64(b, p) {
            None => None,
            Some((page, q)) => match p_u16(b, q) {
                None => None,
                Some((slot, r)) => Some(
                    (EntryView { key, row_id: RowId { page_id: PageId(page), slot_id: SlotId(slot) } }, r),
                ),
            },
        },
    }
}

pub open spec fn pf_entry() -> spec_fn(Seq<u8>, int) -> Option<(EntryView, int)> {
    |b: Seq<u8>, pos: int| pr_entry(b, pos)
}

pub open spec fn pr_leaf(b: Seq<u8>, pos: int) -> Option<NodeView> {
    match p_u8(b, pos) {
        None => None,
        Some((has_next, p1)) => match p_u64(b, p1) {
            None => None,
            Some((next, p2)) => if has_next > 1 {
                None
            } else {
                match p_u16(b, p2) {
                    None => None,
                    Some((n, p3)) => match pr_list(b, p3, n as nat, pf_entry()) {
                        None => None,
                        Some((entries, p4)) => if p4 != b.len() {
                            None
                        } else {
                            Some(NodeView::Leaf {
                                next_leaf: if has_next == 1 { Some(next) } else { None },
                                entries,
                            })
                        },
                    },
                }
            },
        },
    }
}

pub open spec fn pr_internal(b: Seq<u8>, pos: int) -> Option<NodeView> {
    match p_u16(b, pos) {
        None => None,
        Some((nk, p1)) => match pr_list(b, p1, nk as nat, pf_key()) {
            None => None,
            Some((keys, p2)) => match p_u16(b, p2) {
                None => None,
                Some((nc, p3)) => match pr_list(b, p3, nc as nat, pf_page()) {
                    None => None,
                    Some((children, p4)) => if children.len() != keys.len() + 1 || p4 != b.len() {
                        None
                    } else {
                        Some(NodeView::Internal { keys, children })
                    },
                },
            },
        },
    }
}

/// The node that `decode_node` produces from `b`, if any.
pub open spec fn pr_node(b: Seq<u8>) -> Option<NodeView> {
    match p_u32(b, 0) {
        None => None,
        Some((magic, p1)) => if magic != INDEX_NODE_MAGIC {
            None
        } else {
            match p_u16(b, p1) {
                None => None,
                Some((version, p2)) => if version != INDEX_NODE_VERSION {
                    None
                } else {
                    match p_u8(b, p2) {
                        None => None,
                        Some((kind, p3)) => if kind == NODE_LEAF {
                            pr_leaf(b, p3)
                        } else if kind == NODE_INTERNAL {
                            pr_internal(b, p3)
                        } else {
                            None
                        },
                    }
                },
            }
        },
    }
}

fn validate_internal_shape(keys: &Vec<IndexKey>, children: &Vec<PageId>) -> (r: DbResult<()>)
    ensures
        r is Ok <==> children@.len() == keys@.len() + 1,
        r is Err ==> r->Err_0 is Corruption,
{
    if children.len() == 0 || children.len() - 1 != keys.len() {
        return Err(corruption("invalid B+Tree internal node shape"));
    }
    Ok(())
}

fn write_key(out: &mut Vec<u8>, key: &IndexKey) -> (r: DbResult<()>)
    ensures
        r is Ok <==> key_encodable(key@),
        r is Ok ==> final(out)@ == old(out)@ + e_key(key@),
        r is Err ==> r->Err_0 is User,
{
    match key {
        IndexKey::Integer(value) => {
            out.push(KEY_INTEGER);
            push_u64(out, *value as u64);
        },
        IndexKey::Text(value) => {
            out.push(KEY_TEXT);
            push_string(out, value.as_str())?;
        },
    }
    assert(final(out)@ =~= old(out)@ + e_key(key@));
    Ok(())
}

/// Encode a node record.
pub fn encode_node(node: &BTreeNode) -> (r: DbResult<Vec<u8>>)
    ensures
        !node_shape_ok(node@) ==> r is Err && r->Err_0 is Corruption,
        node_shape_ok(node@) ==> (r is Ok <==> node_encodable(node@)),
        node_shape_ok(node@) && r is Err ==> r->Err_0 is User,
        r matches Ok(v) ==> v@ == e_node(node@),
{
    let mut out: Vec<u8> = Vec::new();
    push_u32(&mut out, INDEX_NODE_MAGIC);
    push_u16(&mut out, INDEX_NODE_VERSION);
    let ghost head = out@;
    match node {
        BTreeNode::Leaf { next_leaf, entries } => {
            out.push(NODE_LEAF);
            match next_leaf {
                Some(page_id) => {
                    out.push(1);
                    push_u64(&mut out, page_id.0);
                },
                None => {
                    out.push(0);
                    push_u64(&mut out, 0);
                },
            }
            if entries.len() > 0xFFFF {
                return Err(user_error("leaf entry count does not fit into u16"));
            }
            push_u16(&mut out, entries.len() as u16);
            let ghost view = entries_view(entries@);
            let ghost start = out@;
            let mut i: usize = 0;
            while i < entries.len()
                invariant
                    i <= entries@.len(),
                    view == entries_view(entries@),
                    (node@ matches NodeView::Leaf { entries: e, .. } && e == view),
                    out@ == start + e_list(view.subrange(0, i as int), enc_entry()),
                    forall|j: int| 0 <= j < i ==> #[trigger] key_encodable(view[j].key),
                decreases entries@.len() - i,
            {
                let entry = &entries[i];
                let w = write_key(&mut out, &entry.key);
                if w.is_err() {
                    assert(!key_encodable(view[i as int].key));
                    return Err(user_error("index text key does not fit into u16"));
                }
                push_u64(&mut out, entry.row_id.page_id.0);
                push_u16(&mut out, entry.row_id.slot_id.0);
                proof {
                    lemma_e_list_push(view.subrange(0, i as int), view[i as int], enc_entry());
                    assert(view.subrange(0, i as int).push(view[i as int]) =~= view.subrange(0, i + 1));
                }
                i = i + 1;
                assert(out@ =~= start + e_list(view.subrange(0, i as int), enc_entry()));
            }
            assert(view.subrange(0, view.len() as int) =~= view);
        },
        BTreeNode::Internal { keys, children } => {
            validate_internal_shape(keys, children)?;
            out.push(NODE_INTERNAL);
            if keys.len() > 0xFFFF {
                return Err(user_error("internal key count does not fit into u16"));
            }
            push_u16(&mut out, keys.len() as u16);
            let ghost kview = keys_view(keys@);
            let ghost start = out@;
            let mut i: usize = 0;
            while i < keys.len()
                invariant
                    i <= keys@.len(),
                    kview == keys_view(keys@),
                    (node@ matches NodeView::Internal { keys: ks, children: cs } && ks == kview
                        && cs.len() == ks.len() + 1),
                    out@ == start + e_list(kview.subrange(0, i as int), enc_key()),
                    forall|j: int| 0 <= j < i ==> #[trigger] key_encodable(kview[j]),
                decreases keys@.len() - i,
            {
                let w = write_key(&mut out, &keys[i]);
                if w.is_err() {
                    assert(!key_encodable(kview[i as int]));
                    return Err(user_error("index text key does not fit into u16"));
                }
                proof {
                    lemma_e_list_push(kview.subrange(0, i as int), kview[i as int], enc_key());
                    assert(kview.subrange(0, i as int).push(kview[i as int]) =~= kview.subrange(0, i + 1));
                }
                i = i + 1;
            }
            assert(kview.subrange(0, kview.len() as int) =~= kview);
            if children.len() > 0xFFFF {
                return Err(user_error("internal child count does not fit into u16"));
            }
            push_u16(&mut out, children.len() as u16);
            let ghost cview = page_ids_view(children@);
            let ghost start2 = out@;
            let mut k: usize = 0;
            while k < children.len()
                invariant
                    k <= children@.len(),
                    cview == page_ids_view(children@),
                    out@ == start2 + e_list(cview.subrange(0, k as int), enc_page()),
                decreases children@.len() - k,
            {
                proof {
                    lemma_e_list_push(cview.subrange(0, k as int), cview[k as int], enc_page());
                    assert(cview.subrange(0, k as int).push(cview[k as int]) =~= cview.subrange(0, k + 1));
                }
                push_u64(&mut out, children[k].0);
                k = k + 1;
            }
            assert(cview.subrange(0, cview.len() as int) =~= cview);
        },
    }
    assert(out@ =~= e_node(node@));
    Ok(out)
}

fn read_key(cur: &mut DecodeCursor) -> (r: DbResult<IndexKey>)
    requires
        old(cur).wf(),
    ensures
        final(cur).wf(),
        final(cur).bytes@ == old(cur).bytes@,
        match pr_key(old(cur).bytes@, old(cur).offset as int) {
            Some((k, p)) => r matches Ok(x) && x@ == k && final(cur).offset == p,
            None => r is Err && r->Err_0 is Corruption,
        },
{
    let tag = cur.read_u8()?;
    if tag == KEY_INTEGER {
        let v = cur.read_u64()?;
        Ok(IndexKey::Integer(v as i64))
    } else if tag == KEY_TEXT {
        let text = cur.read_string()?;
        Ok(IndexKey::Text(text))
    } else {
        Err(corruption("unknown index key tag"))
    }
}

fn read_keys(cur: &mut DecodeCursor, n: u16) -> (r: DbResult<Vec<IndexKey>>)
    requires
        old(cur).wf(),
    ensures
        final(cur).wf(),
        final(cur).bytes@ == old(cur).bytes@,
        match pr_list(old(cur).bytes@, old(cur).offset as int, n as nat, pf_key()) {
            Some((ks, p)) => r matches Ok(v) && keys_view(v@) == ks && final(cur).offset == p,
            None => r is Err && r->Err_0 is Corruption,
        },
{
    let ghost b = cur.bytes@;
    let ghost o = cur.offset as int;
    let mut keys: Vec<IndexKey> = Vec::new();
    let mut i: u16 = 0;
    while i < n
        invariant
            cur.wf(),
            cur.bytes@ == b,
            b == old(cur).bytes@,
            o == old(cur).offset,
            i <= n,
            pr_list(b, o, n as nat, pf_key()) == prepend(
                keys_view(keys@),
                pr_list(b, cur.offset as int, (n - i) as nat, pf_key()),
            ),
        decreases n - i,
    {
        let ghost before = cur.offset as int;
        let ghost pre = keys_view(keys@);
        let k = read_key(cur)?;
        proof {
            lemma_prepend_step(pre, b, before, (n - i) as nat, pf_key(), k@, cur.offset as int);
        }
        keys.push(k);
        assert(keys_view(keys@) =~= pre.push(k@));
        i = i + 1;
    }
    assert(keys_view(keys@) + Seq::<KeyView>::empty() =~= keys_view(keys@));
    Ok(keys)
}

fn read_entry(cur: &mut DecodeCursor) -> (r: DbResult<IndexEntry>)
    requires
        old(cur).wf(),
    ensures
        final(cur).wf(),
        final(cur).bytes@ == old(cur).bytes@,
        match pr_entry(old(cur).bytes@, old(cur).offset as int) {
            Some((e, p)) => r matches Ok(x) && x@ == e && final(cur).offset == p,
            None => r is Err && r->Err_0 is Corruption,
        },
{
    let key = read_key(cur)?;
    let page_id = PageId(cur.read_u64()?);
    let slot_id = SlotId(cur.read_u16()?);
    Ok(IndexEntry { key, row_id: RowId { page_id, slot_id } })
}

fn read_entries(cur: &mut DecodeCursor, n: u16) -> (r: DbResult<Vec<IndexEntry>>)
    requires
        old(cur).wf(),
    ensures
        final(cur).wf(),
        final(cur).bytes@ == old(cur).bytes@,
        match pr_list(old(cur).bytes@, old(cur).offset as int, n as nat, pf_entry()) {
            Some((es, p)) => r matches Ok(v) && entries_view(v@) == es && final(cur).offset == p,
            None => r is Err && r->Err_0 is Corruption,
        },
{
    let ghost b = cur.bytes@;
    let ghost o = cur.offset as int;
    let mut entries: Vec<IndexEntry> = Vec::new();
    let mut i: u16 = 0;
    while i < n
        invariant
            cur.wf(),
            cur.bytes@ == b,
            b == old(cur).bytes@,
            o == old(cur).offset,
            i <= n,
            pr_list(b, o, n as nat, pf_entry()) == prepend(
                entries_view(entries@),
                pr_list(b, cur.offset as int, (n - i) as nat, pf_entry()),
            ),
        decreases n - i,
    {
        let ghost before = cur.offset as int;
        let ghost pre = entries_view(entries@);
        let e = read_entry(cur)?;
        proof {
            lemma_prepend_step(pre, b, before, (n - i) as nat, pf_entry(), e@, cur.offset as int);
        }
        entries.push(e);
        assert(entries_view(entries@) =~= pre.push(e@));
        i = i + 1;
    }
    assert(entries_view(entries@) + Seq::<EntryView>::empty() =~= entries_view(entries@));
    Ok(entries)
}

/// Decode a node record.
pub fn decode_node(bytes: &[u8]) -> (r: DbResult<BTreeNode>)
    ensures
        match pr_node(bytes@) {
            Some(n) => r matches Ok(x) && x@ == n,
            None => r is Err && r->Err_0 is Corruption,
        },
{
    let mut cursor = DecodeCursor::new(bytes);
    let magic = cursor.read_u32()?;
    if magic != INDEX_NODE_MAGIC {
        return Err(corruption("invalid index node magic"));
    }
    let version = cursor.read_u16()?;
    if version != INDEX_NODE_VERSION {
        return Err(corruption("unsupported index node version"));
    }
    let kind = cursor.read_u8()?;
    let node = if kind == NODE_LEAF {
        let has_next = cursor.read_u8()?;
        let next_page_id = cursor.read_u64()?;
        let next_leaf = if has_next == 0 {
            None
        } else if has_next == 1 {
            Some(PageId(next_page_id))
        } else {
            return Err(corruption("invalid leaf next flag"));
        };
        let entry_count = cursor.read_u16()?;
        let entries = read_entries(&mut cursor, entry_count)?;
        BTreeNode::Leaf { next_leaf, entries }
    } else if kind == NODE_INTERNAL {
        let key_count = cursor.read_u16()?;
        let keys = read_keys(&mut cursor, key_count)?;
        let child_count = cursor.read_u16()?;
        let children = read_pages(&mut cursor, child_count as u32)?;
        validate_internal_shape(&keys, &children)?;
        BTreeNode::Internal { keys, children }
    } else {
        return Err(corruption("unknown index node kind"));
    };
    cursor.finish()?;
    Ok(node)
}

// ---------------------------------------------------------------------------
// Round trip: decoding an encoded node gives it back.

proof fn lemma_i64_roundtrip(v: i64)
    ensures
        (v as u64) as i64 == v,
{
    assert((v as u64) as i64 == v) by (bit_vector);
}

proof fn lemma_pr_key_at(b: Seq<u8>, p: int, k: KeyView)
    requires
        key_encodable(k),
        0 <= p,
        p + e_key(k).len() <= b.len(),
        b.subrange(p, p + e_key(k).len()) == e_key(k),
    ensures
        pr_key(b, p) == Some((k, p + e_key(k).len())),
{
    match k {
        KeyView::Integer(v) => {
            lemma_le64_bytes(v as u64);
            lemma_sub_split(b, p, seq![KEY_INTEGER], le64_bytes(v as u64));
            lemma_p_u8_at(b, p, KEY_INTEGER);
            lemma_p_u64_at(b, p + 1, v as u64);
            lemma_i64_roundtrip(v);
        },
        KeyView::Text(s) => {
            lemma_sub_split(b, p, seq![KEY_TEXT], e_string(s));
            lemma_p_u8_at(b, p, KEY_TEXT);
            lemma_p_string_at(b, p + 1, s);
        },
    }
}

proof fn lemma_pr_entry_at(b: Seq<u8>, p: int, e: EntryView)
    requires
        key_encodable(e.key),
        0 <= p,
        p + e_entry(e).len() <= b.len(),
        b.subrange(p, p + e_entry(e).len()) == e_entry(e),
    ensures
        pr_entry(b, p) == Some((e, p + e_entry(e).len())),
{
    lemma_le64_bytes(e.row_id.page_id.0);
    lemma_le16_bytes(e.row_id.slot_id.0);
    let h = e_key(e.key) + le64_bytes(e.row_id.page_id.0);
    lemma_sub_split(b, p, h, le16_bytes(e.row_id.slot_id.0));
    lemma_sub_split(b, p, e_key(e.key), le64_bytes(e.row_id.page_id.0));
    lemma_pr_key_at(b, p, e.key);
    lemma_p_u64_at(b, p + e_key(e.key).len(), e.row_id.page_id.0);
    lemma_p_u16_at(b, p + h.len(), e.row_id.slot_id.0);
}

/// Decoding the record of a well-shaped, encodable node gives the node back.
#[verifier::spinoff_prover]
pub proof fn lemma_node_roundtrip(n: NodeView)
    requires
        node_shape_ok(n),
        node_encodable(n),
    ensures
        pr_node(e_node(n)) == Some(n),
{
    let b = e_node(n);
    let head = le32_bytes(INDEX_NODE_MAGIC) + le16_bytes(INDEX_NODE_VERSION);
    lemma_le32_bytes(INDEX_NODE_MAGIC);
    lemma_le16_bytes(INDEX_NODE_VERSION);
    assert(b.subrange(0, b.len() as int) =~= b);
    match n {
        NodeView::Leaf { next_leaf, entries } => {
            let body = seq![NODE_LEAF] + e_next(next_leaf) + le16_bytes(entries.len() as u16) + e_list(entries, enc_entry());
            let x1 = head + seq![NODE_LEAF];
            let x2 = x1 + e_next(next_leaf);
            let x3 = x2 + le16_bytes(entries.len() as u16);
            let next_value: u64 = match next_leaf { Some(q) => q, None => 0 };
            let flag: u8 = match next_leaf { Some(_) => 1, None => 0 };
            assert(e_next(next_leaf) =~= seq![flag] + le64_bytes(next_value));
            lemma_le64_bytes(next_value);
            lemma_le16_bytes(entries.len() as u16);
            assert(b =~= x3 + e_list(entries, enc_entry()));
            lemma_sub_split(b, 0, x3, e_list(entries, enc_entry()));
            lemma_sub_split(b, 0, x2, le16_bytes(entries.len() as u16));
            lemma_sub_split(b, 0, x1, e_next(next_leaf));
            lemma_sub_split(b, 0, head, seq![NODE_LEAF]);
            lemma_sub_split(b, 0, le32_bytes(INDEX_NODE_MAGIC), le16_bytes(INDEX_NODE_VERSION));
            lemma_sub_split(b, 7, seq![flag], le64_bytes(next_value));
            lemma_p_u32_at(b, 0, INDEX_NODE_MAGIC);
            lemma_p_u16_at(b, 4, INDEX_NODE_VERSION);
            lemma_p_u8_at(b, 6, NODE_LEAF);
            lemma_p_u8_at(b, 7, flag);
            lemma_p_u64_at(b, 8, next_value);
            lemma_p_u16_at(b, 16, entries.len() as u16);
            assert forall|i: int, q: int|
                #![trigger entries[i], pf_entry()(b, q)]
                0 <= i < entries.len() && 0 <= q && q + enc_entry()(entries[i]).len() <= b.len()
                    && b.subrange(q, q + enc_entry()(entries[i]).len()) == enc_entry()(entries[i])
                    implies pf_entry()(b, q) == Some((entries[i], q + enc_entry()(entries[i]).len())) by {
                assert(key_encodable(entries[i].key));
                lemma_pr_entry_at(b, q, entries[i]);
            }
            lemma_pr_list_at(b, 18, entries, pf_entry(), enc_entry());
        },
        NodeView::Internal { keys, children } => {
            let x1 = head + seq![NODE_INTERNAL];
            let x2 = x1 + le16_bytes(keys.len() as u16);
            let x3 = x2 + e_list(keys, enc_key());
            let x4 = x3 + le16_bytes(children.len() as u16);
            lemma_le16_bytes(keys.len() as u16);
            lemma_le16_bytes(children.len() as u16);
            assert(b =~= x4 + e_list(children, enc_page()));
            lemma_sub_split(b, 0, x4, e_list(children, enc_page()));
            lemma_sub_split(b, 0, x3, le16_bytes(children.len() as u16));
            lemma_sub_split(b, 0, x2, e_list(keys, enc_key()));
            lemma_sub_split(b, 0, x1, le16_bytes(keys.len() as u16));
            lemma_sub_split(b, 0, head, seq![NODE_INTERNAL]);
            lemma_sub_split(b, 0, le32_bytes(INDEX_NODE_MAGIC), le16_bytes(INDEX_NODE_VERSION));
            lemma_p_u32_at(b, 0, INDEX_NODE_MAGIC);
            lemma_p_u16_at(b, 4, INDEX_NODE_VERSION);
            lemma_p_u8_at(b, 6, NODE_INTERNAL);
            lemma_p_u16_at(b, 7, keys.len() as u16);
            assert forall|i: int, q: int|
                #![trigger keys[i], pf_key()(b, q)]
                0 <= i < keys.len() && 0 <= q && q + enc_key()(keys[i]).len() <= b.len()
                    && b.subrange(q, q + enc_key()(keys[i]).len()) == enc_key()(keys[i])
                    implies pf_key()(b, q) == Some((keys[i], q + enc_key()(keys[i]).len())) by {
                assert(key_encodable(keys[i]));
                lemma_pr_key_at(b, q, keys[i]);
            }
            lemma_pr_list_at(b, 9, keys, pf_key(), enc_key());
            lemma_p_u16_at(b, x3.len() as int, children.len() as u16);
            assert forall|i: int, q: int|
                #![trigger children[i], pf_page()(b, q)]
                0 <= i < children.len() && 0 <= q && q + enc_page()(children[i]).len() <= b.len()
                    && b.subrange(q, q + enc_page()(children[i]).len()) == enc_page()(children[i])
                    implies pf_page()(b, q) == Some((children[i], q + enc_page()(children[i]).len())) by {
                lemma_le64_bytes(children[i]);
                lemma_p_u64_at(b, q, children[i]);
            }
            lemma_pr_list_at(b, x4.len() as int, children, pf_page(), enc_page());
        },
    }
}

// ---------------------------------------------------------------------------
// Node pages.

/// `p` is a valid index page whose slot 0 holds `record`.
pub open spec fn is_node_page(p: Seq<u8>, page_id: u64, record: Seq<u8>) -> bool {
    &&& page_valid(p)
    &&& spec_header(p).page_id == PageId(page_id)
    &&& spec_header(p).page_type == PageType::Index
    &&& raw_slot_count(p) == 1
    &&& slot_live(p, 0)
    &&& slot_record(p, 0) == record
}

/// The node an index page holds in slot 0, if it holds one.
#[verifier::opaque]
pub open spec fn page_node(p: Seq<u8>) -> Option<NodeView> {
    if header_ok(p) && spec_header(p).page_type == PageType::Index && raw_slot_count(p) > 0 && slot_live(p, 0)
        && slot_offset_of(p, 0) + slot_len_of(p, 0) <= PAGE_SIZE {
        pr_node(slot_record(p, 0))
    } else {
        None
    }
}

/// Page `id` of `pages` is a leaf with an entry of key `key` for row `row`.
pub open spec fn leaf_holds(pages: Map<u64, Seq<u8>>, id: u64, key: KeyView, row: RowId) -> bool {
    &&& pages.contains_key(id)
    &&& page_node(pages[id]) matches Some(NodeView::Leaf { entries, .. })
    &&& exists|i: int| 0 <= i < entries.len() && #[trigger] entries[i] == (EntryView { key, row_id: row })
}

/// A node fits a page of its own: its shape is right and its encoding fits
/// one page record.
pub open spec fn node_page_ok(n: NodeView) -> bool {
    &&& node_shape_ok(n)
    &&& node_encodable(n)
    &&& e_node(n).len() <= MAX_PAGE_RECORD
}

/// Index of the first entry of `es` at or after `i` not below `e`, or the
/// number of entries: where a leaf insert puts `e`.
pub open spec fn insert_pos_from(es: Seq<EntryView>, e: EntryView, i: int) -> int
    decreases es.len() - i,
{
    if i >= es.len() || i < 0 {
        es.len() as int
    } else if !entry_lt(es[i], e) {
        i
    } else {
        insert_pos_from(es, e, i + 1)
    }
}

/// The entries of a leaf after inserting `e`.
pub open spec fn leaf_insert(es: Seq<EntryView>, e: EntryView) -> Seq<EntryView> {
    es.insert(insert_pos_from(es, e, 0), e)
}

proof fn lemma_insert_pos(es: Seq<EntryView>, e: EntryView, pos: int, i: int)
    requires
        0 <= i <= pos <= es.len(),
        forall|j: int| 0 <= j < pos ==> #[trigger] entry_lt(es[j], e),
        pos < es.len() ==> !entry_lt(es[pos], e),
    ensures
        insert_pos_from(es, e, i) == pos,
    decreases pos - i,
{
    if i < pos {
        lemma_insert_pos(es, e, pos, i + 1);
    }
}

/// A leaf with entries `es` fits its page, whatever leaf follows it.
pub open spec fn leaf_fits(es: Seq<EntryView>) -> bool {
    node_page_ok(NodeView::Leaf { next_leaf: None, entries: es })
}

proof fn lemma_leaf_fits_next(next: Option<u64>, es: Seq<EntryView>)
    ensures
        node_page_ok(NodeView::Leaf { next_leaf: next, entries: es }) == leaf_fits(es),
{
    let a = e_node(NodeView::Leaf { next_leaf: next, entries: es });
    let b = e_node(NodeView::Leaf { next_leaf: None, entries: es });
    assert(e_next(next).len() == e_next(None).len());
    assert(a.len() == b.len());
}

/// Writing back a leaf with entries `es` succeeds: it fits its page, or,
/// past `MAX_KEYS`, a page can be allocated and both halves of the split fit
/// theirs.
pub open spec fn leaf_write_ok(es: Seq<EntryView>, can_allocate: bool) -> bool {
    if es.len() <= MAX_KEYS {
        leaf_fits(es)
    } else {
        let h = (es.len() / 2) as int;
        &&& can_allocate
        &&& leaf_fits(es.subrange(0, h))
        &&& leaf_fits(es.subrange(h, es.len() as int))
    }
}

/// Writing internal node keys `ks` and children `cs` back succeeds: the node
/// fits its page, or, past `MAX_KEYS`, a page can be allocated and both
/// halves of the split fit theirs.
pub open spec fn internal_write_ok(ks: Seq<KeyView>, cs: Seq<u64>, can_allocate: bool) -> bool {
    if ks.len() <= MAX_KEYS {
        node_page_ok(NodeView::Internal { keys: ks, children: cs })
    } else {
        let m = (ks.len() / 2) as int;
        &&& can_allocate
        &&& node_page_ok(NodeView::Internal { keys: ks.subrange(0, m), children: cs.subrange(0, m + 1) })
        &&& node_page_ok(NodeView::Internal { keys: ks.subrange(m + 1, ks.len() as int), children: cs.subrange(m + 1, cs.len() as int) })
    }
}

/// Pages `n` hold what writing node `node` back to page `id` of pages `o`
/// leaves: that page holds the node and every other page is unchanged.
pub open spec fn node_written(o: Map<u64, Seq<u8>>, n: Map<u64, Seq<u8>>, id: u64, node: NodeView) -> bool {
    &&& n.contains_key(id)
    &&& page_node(n[id]) == Some(node)
    &&& n == o.insert(id, n[id])
}

/// Pages `n` hold what splitting a node of pages `o` into `left`, kept at
/// page `id`, and `right`, written to the fresh page `right_id`, leaves:
/// both pages hold their halves and every other page is unchanged.
pub open spec fn split_written(
    o: Map<u64, Seq<u8>>,
    n: Map<u64, Seq<u8>>,
    id: u64,
    left: NodeView,
    right_id: u64,
    right: NodeView,
) -> bool {
    &&& right_id != id
    &&& n.contains_key(id)
    &&& n.contains_key(right_id)
    &&& page_node(n[id]) == Some(left)
    &&& page_node(n[right_id]) == Some(right)
    &&& n == o.insert(id, n[id]).insert(right_id, n[right_id])
}

/// The leaf halves of an overfull entry list `all`: the lower half keeps
/// page `id` and links to `right_id`, the upper half takes over `next`.
pub open spec fn leaf_halves(all: Seq<EntryView>, next: Option<u64>, right_id: u64) -> (NodeView, NodeView) {
    let h = (all.len() / 2) as int;
    (
        NodeView::Leaf { next_leaf: Some(right_id), entries: all.subrange(0, h) },
        NodeView::Leaf { next_leaf: next, entries: all.subrange(h, all.len() as int) },
    )
}

/// The separator that moves up when the overfull entry list `all` splits.
pub open spec fn leaf_separator(all: Seq<EntryView>) -> KeyView {
    all[(all.len() / 2) as int].key
}

/// The internal halves of overfull keys `ks` and children `cs` around the
/// middle key `m = len / 2`, which moves up.
pub open spec fn internal_halves(ks: Seq<KeyView>, cs: Seq<u64>) -> (NodeView, NodeView) {
    let m = (ks.len() / 2) as int;
    (
        NodeView::Internal { keys: ks.subrange(0, m), children: cs.subrange(0, m + 1) },
        NodeView::Internal { keys: ks.subrange(m + 1, ks.len() as int), children: cs.subrange(m + 1, cs.len() as int) },
    )
}

/// The separator and new right page of a split, if there was one.
spec fn split_view(s: Option<SplitResult>) -> Option<(KeyView, u64)> {
    match s {
        Some(sp) => Some((sp.separator@, sp.right_page_id.0)),
        None => None,
    }
}

/// What inserting entry `e` leaves when page `id` of pages `o` is a leaf:
/// without a split (`split` is `None`) the leaf holds `e` among its entries
/// in key order; with one, the overfull entries are halved between the leaf
/// and the fresh page of `split`, whose separator is the first key of the
/// upper half (the pages themselves are fixed where `fresh` holds). Pages
/// that are not leaves give no condition.
pub open spec fn leaf_insert_outcome(
    o: Map<u64, Seq<u8>>,
    n: Map<u64, Seq<u8>>,
    id: u64,
    e: EntryView,
    split: Option<(KeyView, u64)>,
    fresh: bool,
) -> bool {
    match page_node(o[id]) {
        Some(NodeView::Leaf { next_leaf, entries }) => {
            let all = leaf_insert(entries, e);
            match split {
                None => all.len() <= MAX_KEYS && node_written(o, n, id, NodeView::Leaf { next_leaf, entries: all }),
                Some((sep, right_id)) => {
                    let halves = leaf_halves(all, next_leaf, right_id);
                    &&& all.len() > MAX_KEYS
                    &&& sep == leaf_separator(all)
                    &&& fresh ==> split_written(o, n, id, halves.0, right_id, halves.1)
                }
            }
        },
        _ => true,
    }
}

/// What writing back an internal node with keys `ks` and children `cs` at
/// page `id` of pages `o` leaves in pages `n`: the node itself when it has at
/// most `MAX_KEYS` keys (and no split is handed up); otherwise its halves
/// around the middle key, which is handed up with the fresh right page.
pub open spec fn absorb_outcome(
    o: Map<u64, Seq<u8>>,
    n: Map<u64, Seq<u8>>,
    id: u64,
    ks: Seq<KeyView>,
    cs: Seq<u64>,
    split: Option<(KeyView, u64)>,
) -> bool {
    if ks.len() <= MAX_KEYS {
        split is None && node_written(o, n, id, NodeView::Internal { keys: ks, children: cs })
    } else {
        let halves = internal_halves(ks, cs);
        match split {
            Some((sep, right_id)) => sep == ks[(ks.len() / 2) as int] && split_written(o, n, id, halves.0, right_id, halves.1),
            None => false,
        }
    }
}

/// What an internal node at page `id` with keys `keys` and children
/// `children` leaves after its child at `pos` took an entry, going from
/// pages `mid` to `n`: nothing more when the child did not split; otherwise
/// the node takes the child's separator at `pos` and its new right page just
/// after the child, as `absorb_outcome` says.
pub open spec fn child_taken(
    mid: Map<u64, Seq<u8>>,
    n: Map<u64, Seq<u8>>,
    id: u64,
    keys: Seq<KeyView>,
    children: Seq<u64>,
    pos: int,
    child_split: Option<(KeyView, u64)>,
    split: Option<(KeyView, u64)>,
) -> bool {
    match child_split {
        None => split is None && n == mid,
        Some(cs) => absorb_outcome(mid, n, id, keys.insert(pos, cs.0), children.insert(pos + 1, cs.1), split),
    }
}

/// The pages after each child on an insertion's path took the entry, with
/// the split that child handed up, from the top node down.
pub type InsertTrace = Seq<(Map<u64, Seq<u8>>, Option<(KeyView, u64)>)>;

/// What inserting entry `e` into the subtree at page `id` of pages `o`,
/// following at most `depth` pages, leaves in pages `n`, with `split` the
/// separator and fresh right page handed up when the subtree's top node
/// splits, and `t` the pages and splits left by each child on the way down:
/// a leaf takes `e` in key order and splits in half when it overflows; an
/// internal node passes `e` to the child a search for its key descends into
/// and, when that child splits, takes the separator at the child's position
/// and the new right page just after it, splitting around its middle key
/// when it overflows. False where the walk meets a missing page, a page that
/// is not a node, a badly shaped internal node, or runs out of depth.
pub open spec fn insert_outcome(
    o: Map<u64, Seq<u8>>,
    n: Map<u64, Seq<u8>>,
    id: u64,
    e: EntryView,
    split: Option<(KeyView, u64)>,
    depth: nat,
    t: InsertTrace,
) -> bool
    decreases depth,
{
    if depth == 0 || !o.contains_key(id) {
        false
    } else {
        match page_node(o[id]) {
            Some(NodeView::Leaf { .. }) => t.len() == 0 && leaf_insert_outcome(o, n, id, e, split, true),
            Some(NodeView::Internal { keys, children }) => {
                &&& children.len() == keys.len() + 1
                &&& t.len() > 0
                &&& insert_outcome(o, t[0].0, children[child_pos(keys, e.key)], e, t[0].1, (depth - 1) as nat, t.drop_first())
                &&& child_taken(t[0].0, n, id, keys, children, child_pos(keys, e.key), t[0].1, split)
            },
            None => false,
        }
    }
}

/// The separator that inserting entry `e` into the subtree at page `id` of
/// pages `o` hands up, following at most `depth` pages: a leaf that
/// overflows hands up the first key of its upper half; an internal node
/// that takes its child's separator and then overflows hands up its middle
/// key; `None` when nothing splits at the top or the walk fails.
pub open spec fn split_key(o: Map<u64, Seq<u8>>, id: u64, e: EntryView, depth: nat) -> Option<KeyView>
    decreases depth,
{
    if depth == 0 || !o.contains_key(id) {
        None
    } else {
        match page_node(o[id]) {
            Some(NodeView::Leaf { entries, .. }) => {
                let all = leaf_insert(entries, e);
                if all.len() > MAX_KEYS { Some(leaf_separator(all)) } else { None }
            },
            Some(NodeView::Internal { keys, children }) => {
                match split_key(o, children[child_pos(keys, e.key)], e, (depth - 1) as nat) {
                    None => None,
                    Some(sep) => {
                        let ks = keys.insert(child_pos(keys, e.key), sep);
                        if ks.len() > MAX_KEYS { Some(ks[(ks.len() / 2) as int]) } else { None }
                    },
                }
            },
            None => None,
        }
    }
}

/// Inserting entry `e` into the subtree at page `id` of pages `o` cannot
/// fail in a writable store that can hand out a page per level: the walk
/// down meets only well-shaped nodes within `depth`, and every node written
/// back (a leaf with `e`, or an internal node with a child's separator and
/// whatever new right page) fits its page, or both halves of its split do.
pub open spec fn insert_ok(o: Map<u64, Seq<u8>>, id: u64, e: EntryView, depth: nat) -> bool
    decreases depth,
{
    if depth == 0 || !o.contains_key(id) {
        false
    } else {
        match page_node(o[id]) {
            Some(NodeView::Leaf { entries, .. }) => leaf_write_ok(leaf_insert(entries, e), true),
            Some(NodeView::Internal { keys, children }) => {
                &&& children.len() == keys.len() + 1
                &&& insert_ok(o, children[child_pos(keys, e.key)], e, (depth - 1) as nat)
                &&& split_key(o, children[child_pos(keys, e.key)], e, (depth - 1) as nat) matches Some(sep)
                    ==> forall|right: u64| #[trigger] internal_write_ok(keys.insert(child_pos(keys, e.key), sep),
                        children.insert(child_pos(keys, e.key) + 1, right), true)
            },
            None => false,
        }
    }
}

/// `insert_ok` and `split_key` at a leaf page.
proof fn lemma_insert_ok_leaf(o: Map<u64, Seq<u8>>, id: u64, e: EntryView, depth: nat, nx: Option<u64>, es: Seq<EntryView>)
    requires
        depth > 0,
        o.contains_key(id),
        page_node(o[id]) == Some(NodeView::Leaf { next_leaf: nx, entries: es }),
    ensures
        insert_ok(o, id, e, depth) == leaf_write_ok(leaf_insert(es, e), true),
        split_key(o, id, e, depth) == (if leaf_insert(es, e).len() > MAX_KEYS { Some(leaf_separator(leaf_insert(es, e))) } else { None }),
{
}

/// `insert_ok` and `split_key` at an internal page.
proof fn lemma_insert_ok_internal(o: Map<u64, Seq<u8>>, id: u64, e: EntryView, depth: nat, kv: Seq<KeyView>, cv: Seq<u64>)
    requires
        depth > 0,
        o.contains_key(id),
        page_node(o[id]) == Some(NodeView::Internal { keys: kv, children: cv }),
    ensures
        insert_ok(o, id, e, depth) == ({
            &&& cv.len() == kv.len() + 1
            &&& insert_ok(o, cv[child_pos(kv, e.key)], e, (depth - 1) as nat)
            &&& split_key(o, cv[child_pos(kv, e.key)], e, (depth - 1) as nat) matches Some(sep)
                ==> forall|right: u64| #[trigger] internal_write_ok(kv.insert(child_pos(kv, e.key), sep),
                    cv.insert(child_pos(kv, e.key) + 1, right), true)
        }),
        split_key(o, id, e, depth) == (match split_key(o, cv[child_pos(kv, e.key)], e, (depth - 1) as nat) {
            None => None,
            Some(sep) => {
                let ks = kv.insert(child_pos(kv, e.key), sep);
                if ks.len() > MAX_KEYS { Some(ks[(ks.len() / 2) as int]) } else { None }
            },
        }),
{
}

/// The internal node a root split puts on top: the separator as its one
/// key, the old root and its new right sibling as its children.
pub open spec fn new_root_node(sep: KeyView, left: u64, right: u64) -> NodeView {
    NodeView::Internal { keys: seq![sep], children: seq![left, right] }
}

/// What the top of an insertion leaves, going from pages `mid` (after the
/// old root `old_root` took the entry, handing up `split`) to pages `n`, with
/// `root` the root afterwards: the old root when it did not split; else a
/// fresh page holding an internal node with the separator as its one key
/// and the old root and its new right sibling as its children.
pub open spec fn root_outcome(
    mid: Map<u64, Seq<u8>>,
    n: Map<u64, Seq<u8>>,
    old_root: u64,
    split: Option<(KeyView, u64)>,
    root: u64,
) -> bool {
    match split {
        None => root == old_root && n == mid,
        Some((sep, right)) => root != old_root
            && node_written(mid, n, root, NodeView::Internal { keys: seq![sep], children: seq![old_root, right] }),
    }
}

/// An internal node whose child's subtree took the entry (and whose own
/// write-back took the child's split, if any) has taken the entry.
proof fn lemma_internal_outcome(
    o: Map<u64, Seq<u8>>,
    mid: Map<u64, Seq<u8>>,
    n: Map<u64, Seq<u8>>,
    id: u64,
    kv: Seq<KeyView>,
    cv: Seq<u64>,
    e: EntryView,
    child_split: Option<(KeyView, u64)>,
    split: Option<(KeyView, u64)>,
    depth: nat,
    tc: InsertTrace,
)
    requires
        depth > 0,
        o.contains_key(id),
        page_node(o[id]) == Some(NodeView::Internal { keys: kv, children: cv }),
        cv.len() == kv.len() + 1,
        insert_outcome(o, mid, cv[child_pos(kv, e.key)], e, child_split, (depth - 1) as nat, tc),
        child_taken(mid, n, id, kv, cv, child_pos(kv, e.key), child_split, split),
    ensures
        insert_outcome(o, n, id, e, split, depth, seq![(mid, child_split)] + tc),
{
    let t = seq![(mid, child_split)] + tc;
    assert(t.drop_first() =~= tc);
    assert(t[0] == (mid, child_split));
}

/// Page `id` of pages `o` holds an internal node whose child count is not
/// its key count plus one.
pub open spec fn bad_internal_at(o: Map<u64, Seq<u8>>, id: u64) -> bool {
    &&& o.contains_key(id)
    &&& page_node(o[id]) matches Some(NodeView::Internal { keys, children })
    &&& children.len() != keys.len() + 1
}

/// Where page `id` of pages `o` is a leaf, the root after inserting `e`
/// into the tree rooted there is that page exactly when the leaf takes `e`
/// without splitting.
pub open spec fn leaf_root_kept(o: Map<u64, Seq<u8>>, id: u64, e: EntryView, root: u64) -> bool {
    match page_node(o[id]) {
        Some(NodeView::Leaf { entries, .. }) => (root == id <==> leaf_insert(entries, e).len() <= MAX_KEYS),
        _ => true,
    }
}

/// The next-leaf link of a leaf node as page ids.
pub open spec fn next_view(next: Option<PageId>) -> Option<u64> {
    match next {
        Some(p) => Some(p.0),
        None => None,
    }
}

/// Page `id` of `pages` holds a leaf node.
pub open spec fn leaf_page(pages: Map<u64, Seq<u8>>, id: u64) -> bool {
    &&& pages.contains_key(id)
    &&& page_node(pages[id]) matches Some(NodeView::Leaf { .. })
}

/// Row `row` stands under key `key` in some leaf page of `pages`.
pub open spec fn row_held(pages: Map<u64, Seq<u8>>, key: KeyView, row: RowId) -> bool {
    exists|id: u64| #[trigger] leaf_holds(pages, id, key, row)
}

/// Store a node as the single record of a fresh index page.
pub fn node_to_page(page_id: PageId, node: &BTreeNode) -> (r: DbResult<Page>)
    ensures
        !node_shape_ok(node@) ==> r is Err && r->Err_0 is Corruption,
        node_shape_ok(node@) ==> (r is Ok <==> node_encodable(node@) && e_node(node@).len() <= MAX_PAGE_RECORD),
        node_shape_ok(node@) && r is Err ==> r->Err_0 is User,
        r matches Ok(p) ==> p.wf() && is_node_page(p@, page_id.0, e_node(node@)),
{
    let bytes = encode_node(node)?;
    let mut page = Page::new(page_id, PageType::Index);
    proof {
        assert(first_dead(page@, 0) is None);
    }
    page.insert_record(bytes.as_slice())?;
    Ok(page)
}

/// Read the node stored in an index page.
pub fn node_from_page(page: &Page) -> (r: DbResult<BTreeNode>)
    requires
        page.wf(),
    ensures
        !header_ok(page@) ==> r is Err && r->Err_0 is Corruption,
        header_ok(page@) && spec_header(page@).page_type != PageType::Index ==> r is Err && r->Err_0 is Corruption,
        header_ok(page@) && spec_header(page@).page_type == PageType::Index ==> {
            if raw_slot_count(page@) == 0 {
                r is Err && r->Err_0 is User
            } else if !slot_live(page@, 0) {
                r is Err && r->Err_0 is Corruption
            } else if slot_offset_of(page@, 0) + slot_len_of(page@, 0) > PAGE_SIZE {
                r is Err && r->Err_0 is Corruption
            } else {
                match pr_node(slot_record(page@, 0)) {
                    Some(n) => r matches Ok(x) && x@ == n,
                    None => r is Err && r->Err_0 is Corruption,
                }
            }
        },
        r matches Ok(x) ==> page_node(page@) == Some(x@),
        r is Err ==> page_node(page@) is None,
{
    proof { reveal(page_node); }
    let header = page.header()?;
    if header.page_type != PageType::Index {
        return Err(corruption("page is not an index page"));
    }
    let bytes = match page.read_record(SlotId(0))? {
        Some(bytes) => bytes,
        None => return Err(corruption("index node record is missing")),
    };
    decode_node(bytes)
}

/// A node written to its page is read back unchanged from that page.
pub proof fn lemma_node_page_roundtrip(n: NodeView, page_id: u64, p: Seq<u8>)
    requires
        node_shape_ok(n),
        node_encodable(n),
        is_node_page(p, page_id, e_node(n)),
    ensures
        header_ok(p),
        spec_header(p).page_type == PageType::Index,
        raw_slot_count(p) > 0,
        slot_live(p, 0),
        slot_offset_of(p, 0) + slot_len_of(p, 0) <= PAGE_SIZE,
        pr_node(slot_record(p, 0)) == Some(n),
{
    assert(crate::page::slot_ok(p, 0));
    lemma_node_roundtrip(n);
}

// ---------------------------------------------------------------------------
// Node-level steps of insert and lookup.

/// A copy of a key.
pub fn copy_key(key: &IndexKey) -> (r: IndexKey)
    ensures
        r@ == key@,
{
    match key {
        IndexKey::Integer(v) => IndexKey::Integer(*v),
        IndexKey::Text(s) => IndexKey::Text(s.clone()),
    }
}

/// Row ids of the entries of `s` whose key is `key`, in order.
pub open spec fn rows_with_key(s: Seq<EntryView>, key: KeyView) -> Seq<RowId>
    decreases s.len(),
{
    if s.len() == 0 {
        Seq::empty()
    } else {
        rows_with_key(s.drop_last(), key) + if s.last().key == key {
            seq![s.last().row_id]
        } else {
            Seq::empty()
        }
    }
}

/// Each row id of `rows_with_key(s, key)` is that of an entry of `s` with
/// key `key`.
pub proof fn lemma_rows_with_key_from(s: Seq<EntryView>, key: KeyView)
    ensures
        forall|j: int| #![trigger rows_with_key(s, key)[j]] 0 <= j < rows_with_key(s, key).len() ==> exists|i: int| 0 <= i < s.len()
            && #[trigger] s[i] == (EntryView { key, row_id: rows_with_key(s, key)[j] }),
    decreases s.len(),
{
    if s.len() > 0 {
        let d = s.drop_last();
        lemma_rows_with_key_from(d, key);
        assert forall|j: int| #![trigger rows_with_key(s, key)[j]] 0 <= j < rows_with_key(s, key).len() implies exists|i: int| 0 <= i < s.len()
            && #[trigger] s[i] == (EntryView { key, row_id: rows_with_key(s, key)[j] }) by {
            if j < rows_with_key(d, key).len() {
                let i = choose|i: int| 0 <= i < d.len() && #[trigger] d[i] == (EntryView { key, row_id: rows_with_key(d, key)[j] });
                assert(s[i] == d[i]);
            } else {
                assert(s[s.len() - 1] == (EntryView { key, row_id: rows_with_key(s, key)[j] }));
            }
        }
    }
}

/// An entry of `s` with key `key` gives its row id among the row ids of
/// `s`'s entries with that key.
pub proof fn lemma_rows_with_key_has(s: Seq<EntryView>, key: KeyView, e: EntryView)
    requires
        s.contains(e),
        e.key == key,
    ensures
        rows_with_key(s, key).contains(e.row_id),
    decreases s.len(),
{
    let pre = rows_with_key(s.drop_last(), key);
    let all = rows_with_key(s, key);
    if s.last() == e {
        assert(all[pre.len() as int] == e.row_id);
    } else {
        let k = choose|k: int| 0 <= k < s.len() && s[k] == e;
        assert(s.drop_last()[k] == e);
        lemma_rows_with_key_has(s.drop_last(), key, e);
        let q = choose|q: int| 0 <= q < pre.len() && pre[q] == e.row_id;
        assert(all[q] == pre[q]);
    }
}

/// `k` is where a scan for `key` stops: the first entry with a greater key.
pub open spec fn scan_stop(s: Seq<EntryView>, key: KeyView, k: int) -> bool {
    &&& 0 <= k <= s.len()
    &&& forall|j: int| 0 <= j < k ==> !#[trigger] key_lt(key, s[j].key)
    &&& k < s.len() ==> key_lt(key, s[k].key)
}

/// Scan one leaf for `key`: append the row ids of the equal entries before the
/// first greater key, and report whether a greater key was met.
pub fn collect_equal(entries: &Vec<IndexEntry>, key: &IndexKey, row_ids: &mut Vec<RowId>) -> (stop: bool)
    ensures
        exists|k: int| #[trigger] scan_stop(entries_view(entries@), key@, k) && {
            &&& stop == (k < entries@.len())
            &&& final(row_ids)@ == old(row_ids)@ + rows_with_key(entries_view(entries@).subrange(0, k), key@)
        },
{
    let ghost s = entries_view(entries@);
    let mut i: usize = 0;
    while i < entries.len()
        invariant
            i <= entries@.len(),
            s == entries_view(entries@),
            forall|j: int| 0 <= j < i ==> !#[trigger] key_lt(key@, s[j].key),
            row_ids@ == old(row_ids)@ + rows_with_key(s.subrange(0, i as int), key@),
        decreases entries@.len() - i,
    {
        let entry = &entries[i];
        assert(s.subrange(0, i + 1).drop_last() =~= s.subrange(0, i as int));
        match compare_keys(&entry.key, key) {
            KeyOrder::Less => {},
            KeyOrder::Equal => {
                row_ids.push(entry.row_id);
            },
            KeyOrder::Greater => {
                assert(scan_stop(s, key@, i as int));
                return true;
            },
        }
        i = i + 1;
        assert(row_ids@ =~= old(row_ids)@ + rows_with_key(s.subrange(0, i as int), key@));
    }
    assert(scan_stop(s, key@, i as int));
    assert(s.subrange(0, i as int) =~= s);
    false
}

/// Split an overfull leaf in the middle: the right half starts at `len / 2`,
/// and its first key separates the halves.
pub fn split_leaf(entries: Vec<IndexEntry>) -> (r: (Vec<IndexEntry>, Vec<IndexEntry>, IndexKey))
    requires
        entries@.len() >= 2,
    ensures
        entries_view(r.0@) == entries_view(entries@).subrange(0, (entries@.len() / 2) as int),
        entries_view(r.1@) == entries_view(entries@).subrange((entries@.len() / 2) as int, entries@.len() as int),
        r.2@ == entries_view(entries@)[(entries@.len() / 2) as int].key,
{
    let mut left = entries;
    let split_at = left.len() / 2;
    let ghost all = entries_view(left@);
    let right = left.split_off(split_at);
    let separator = copy_key(&right[0].key);
    assert(entries_view(left@) =~= all.subrange(0, split_at as int));
    assert(entries_view(right@) =~= all.subrange(split_at as int, all.len() as int));
    (left, right, separator)
}

/// Split an overfull internal node around its middle separator `m = len / 2`:
/// keys `[0, m)` and children `[0, m]` stay left, key `m` moves up, the rest
/// goes right.
pub fn split_internal(keys: Vec<IndexKey>, children: Vec<PageId>) -> (r: (Vec<IndexKey>, Vec<PageId>, IndexKey, Vec<IndexKey>, Vec<PageId>))
    requires
        keys@.len() >= 1,
        children@.len() == keys@.len() + 1,
    ensures
        ({
            let m = (keys@.len() / 2) as int;
            &&& keys_view(r.0@) == keys_view(keys@).subrange(0, m)
            &&& r.1@ == children@.subrange(0, m + 1)
            &&& r.2@ == keys_view(keys@)[m]
            &&& keys_view(r.3@) == keys_view(keys@).subrange(m + 1, keys@.len() as int)
            &&& r.4@ == children@.subrange(m + 1, children@.len() as int)
        }),
{
    let ghost kv = keys_view(keys@);
    let ghost cv = children@;
    let mut left_keys = keys;
    let mut left_children = children;
    let promoted_index = left_keys.len() / 2;
    let separator = copy_key(&left_keys[promoted_index]);
    let right_keys = left_keys.split_off(promoted_index + 1);
    let _promoted = left_keys.pop();
    let right_children = left_children.split_off(promoted_index + 1);
    assert(keys_view(left_keys@) =~= kv.subrange(0, promoted_index as int));
    assert(keys_view(right_keys@) =~= kv.subrange(promoted_index + 1, kv.len() as int));
    (left_keys, left_children, separator, right_keys, right_children)
}

// ---------------------------------------------------------------------------
// The tree over a page store.

/// Storage boundary used by the B+Tree algorithm.
///
/// The index owns no file handle: the transaction layer supplies a store
/// backed by dirty-page staging over committed pages.
pub trait BPlusTreePageStore {
    /// The store's own consistency condition, kept by every operation; a
    /// store without one keeps `true`.
    open spec fn store_ok(&self) -> bool {
        true
    }

    /// Whether `pages` describes what the store holds; a store without such
    /// a model says `false`.
    open spec fn modeled(&self) -> bool {
        false
    }

    /// The page images the store holds, by page id.
    open spec fn pages(&self) -> Map<u64, Seq<u8>> {
        Map::empty()
    }

    /// Whether the store takes page writes and allocations; a store that
    /// promises nothing says `false`.
    open spec fn writable(&self) -> bool {
        false
    }

    /// How many more page ids a writable store hands out.
    open spec fn alloc_budget(&self) -> nat {
        0
    }

    /// The committed bytes under the store's own pages; no operation changes
    /// them.
    open spec fn backing(&self) -> Seq<u8> {
        Seq::empty()
    }

    /// Whether the store has handed out page id `id`.
    open spec fn allocated(&self, id: u64) -> bool {
        true
    }

    /// Every page the store holds has an id it handed out, and allocation
    /// hands out ids it has not handed out before; a store that does not
    /// promise this says `false`.
    open spec fn allocates_fresh(&self) -> bool {
        false
    }

    /// Load a page by id.
    fn load_page(&mut self, page_id: PageId) -> (r: DbResult<Page>)
        requires
            old(self).store_ok(),
        ensures
            final(self).store_ok(),
            r matches Ok(p) ==> p.wf(),
            final(self).modeled() == old(self).modeled(),
            old(self).modeled() ==> final(self).pages() == old(self).pages(),
            old(self).modeled() ==> (r matches Ok(p) ==> old(self).pages().contains_key(page_id.0)
                && p@ == old(self).pages()[page_id.0]),
            forall|i: u64| #[trigger] final(self).allocated(i) == old(self).allocated(i),
            final(self).allocates_fresh() == old(self).allocates_fresh(),
            old(self).allocates_fresh() && r is Ok ==> old(self).allocated(page_id.0),
            final(self).backing() == old(self).backing(),
            old(self).modeled() ==> (r is Ok <==> old(self).pages().contains_key(page_id.0)),
            final(self).writable() == old(self).writable(),
            final(self).alloc_budget() == old(self).alloc_budget(),
    ;

    /// Store a complete page image.
    fn store_page(&mut self, page: Page) -> (r: DbResult<()>)
        requires
            old(self).store_ok(),
            page.wf(),
        ensures
            final(self).store_ok(),
            final(self).modeled() == old(self).modeled(),
            old(self).modeled() && r is Ok ==> final(self).pages() == old(self).pages().insert(spec_header(page@).page_id.0, page@),
            old(self).modeled() && r is Err ==> final(self).pages() == old(self).pages(),
            forall|i: u64| #[trigger] final(self).allocated(i) == old(self).allocated(i),
            old(self).allocates_fresh() && (r is Err || old(self).allocated(spec_header(page@).page_id.0))
                ==> final(self).allocates_fresh(),
            final(self).backing() == old(self).backing(),
            old(self).modeled() && old(self).writable() ==> (r is Ok <==> header_ok(page@)),
            final(self).writable() == old(self).writable(),
            final(self).alloc_budget() == old(self).alloc_budget(),
    ;

    /// Allocate a fresh page id for a split.
    fn allocate_page(&mut self) -> (r: DbResult<PageId>)
        requires
            old(self).store_ok(),
        ensures
            final(self).store_ok(),
            final(self).modeled() == old(self).modeled(),
            old(self).modeled() ==> final(self).pages() == old(self).pages(),
            forall|i: u64| old(self).allocated(i) ==> #[trigger] final(self).allocated(i),
            old(self).allocates_fresh() ==> final(self).allocates_fresh(),
            old(self).allocates_fresh() ==> (r matches Ok(id) ==> !old(self).allocated(id.0) && final(self).allocated(id.0)),
            final(self).backing() == old(self).backing(),
            old(self).modeled() && old(self).writable() ==> (r is Ok <==> old(self).alloc_budget() > 0),
            old(self).modeled() && old(self).writable() ==> final(self).alloc_budget() + (if r is Ok { 1nat } else { 0nat })
                == old(self).alloc_budget(),
            final(self).writable() == old(self).writable(),
    ;
}

struct SplitResult {
    separator: IndexKey,
    right_page_id: PageId,
}

/// Create an empty root leaf page.
pub fn initialize_root<S: BPlusTreePageStore>(store: &mut S, root_page_id: PageId) -> (r: DbResult<()>)
    requires
        old(store).store_ok(),
    ensures
        final(store).store_ok(),
        final(store).backing() == old(store).backing(),
        old(store).modeled() && old(store).writable() ==> r is Ok
            && leaf_page(final(store).pages(), root_page_id.0)
            && page_node(final(store).pages()[root_page_id.0]) == Some(NodeView::Leaf { next_leaf: None, entries: Seq::empty() })
            && page_valid(final(store).pages()[root_page_id.0])
            && final(store).pages() == old(store).pages().insert(root_page_id.0, final(store).pages()[root_page_id.0]),
{
    let node = BTreeNode::Leaf { next_leaf: None, entries: Vec::new() };
    proof {
        lemma_empty_leaf_fits();
    }
    let page = node_to_page(root_page_id, &node)?;
    proof {
        lemma_node_page_roundtrip(node@, root_page_id.0, page@);
        reveal(page_node);
    }
    store.store_page(page)
}

/// An empty leaf fits its page.
proof fn lemma_empty_leaf_fits()
    ensures
        node_page_ok(NodeView::Leaf { next_leaf: None, entries: Seq::empty() }),
{
    let es = Seq::<EntryView>::empty();
    assert(e_list(es, enc_entry()) =~= Seq::<u8>::empty());
    assert(e_node(NodeView::Leaf { next_leaf: None, entries: es }).len() == 4 + 2 + 1 + 9 + 2);
}

fn store_node<S: BPlusTreePageStore>(store: &mut S, page_id: PageId, node: &BTreeNode) -> (r: DbResult<()>)
    requires
        old(store).store_ok(),
    ensures
        final(store).store_ok(),
        final(store).modeled() == old(store).modeled(),
        forall|i: u64| #[trigger] final(store).allocated(i) == old(store).allocated(i),
        old(store).allocates_fresh() && old(store).allocated(page_id.0) ==> final(store).allocates_fresh(),
        old(store).modeled() && r is Ok ==> final(store).pages().contains_key(page_id.0)
            && page_node(final(store).pages()[page_id.0]) == Some(node@)
            && final(store).pages() == old(store).pages().insert(page_id.0, final(store).pages()[page_id.0]),
        old(store).modeled() && r is Err ==> final(store).pages() == old(store).pages(),
        final(store).backing() == old(store).backing(),
        final(store).writable() == old(store).writable(),
        final(store).alloc_budget() == old(store).alloc_budget(),
        old(store).modeled() && old(store).writable() ==> (r is Ok <==> node_page_ok(node@)),
{
    let page = node_to_page(page_id, node)?;
    proof {
        lemma_node_page_roundtrip(node@, page_id.0, page@);
        reveal(page_node);
    }
    store.store_page(page)
}

fn insert_into_leaf<S: BPlusTreePageStore>(
    store: &mut S,
    page_id: PageId,
    next_leaf: Option<PageId>,
    entries: Vec<IndexEntry>,
    key: IndexKey,
    row_id: RowId,
) -> (r: DbResult<Option<SplitResult>>)
    requires
        old(store).store_ok(),
    ensures
        final(store).store_ok(),
        final(store).modeled() == old(store).modeled(),
        forall|i: u64| old(store).allocated(i) ==> #[trigger] final(store).allocated(i),
        old(store).allocates_fresh() && old(store).allocated(page_id.0) ==> final(store).allocates_fresh(),
        old(store).modeled() && old(store).allocates_fresh() && old(store).allocated(page_id.0) && r is Ok
            ==> exists|id: u64| #[trigger] leaf_holds(final(store).pages(), id, key@, row_id) && final(store).allocated(id)
                && (id == page_id.0 || !old(store).allocated(id)),
        final(store).backing() == old(store).backing(),
        final(store).writable() == old(store).writable(),
        old(store).modeled() && old(store).writable() ==> (r is Ok <==> leaf_write_ok(
            leaf_insert(entries_view(entries@), EntryView { key: key@, row_id }),
            old(store).alloc_budget() > 0,
        )),
        old(store).modeled() && old(store).writable() ==> final(store).alloc_budget() + 1 >= old(store).alloc_budget(),
        r matches Ok(None) ==> {
            let all = leaf_insert(entries_view(entries@), EntryView { key: key@, row_id });
            &&& all.len() <= MAX_KEYS
            &&& old(store).modeled() ==> node_written(old(store).pages(), final(store).pages(), page_id.0,
                NodeView::Leaf { next_leaf: next_view(next_leaf), entries: all })
        },
        r matches Ok(Some(sp)) ==> leaf_insert(entries_view(entries@), EntryView { key: key@, row_id }).len() > MAX_KEYS
            && sp.separator@ == leaf_separator(leaf_insert(entries_view(entries@), EntryView { key: key@, row_id }))
            && (old(store).allocates_fresh() ==> !old(store).allocated(sp.right_page_id.0)),
        r matches Ok(Some(sp)) ==> old(store).modeled() && old(store).allocates_fresh() && old(store).allocated(page_id.0) ==> {
            let all = leaf_insert(entries_view(entries@), EntryView { key: key@, row_id });
            let halves = leaf_halves(all, next_view(next_leaf), sp.right_page_id.0);
            split_written(old(store).pages(), final(store).pages(), page_id.0, halves.0, sp.right_page_id.0, halves.1)
        },
{
    let ghost k = key@;
    let ghost e = EntryView { key: k, row_id };
    let mut entries = entries;
    let ghost e0 = entries_view(entries@);
    insert_leaf_entry(&mut entries, key, row_id);
    let ghost pos = choose|pos: int| {
        &&& 0 <= pos <= e0.len()
        &&& entries_view(entries@) == e0.insert(pos, e)
        &&& forall|i: int| 0 <= i < pos ==> #[trigger] entry_lt(e0[i], e)
        &&& pos < e0.len() ==> !entry_lt(e0[pos], e)
    };
    proof {
        lemma_insert_pos(e0, e, pos, 0);
        let nx = match next_leaf { Some(p) => Some(p.0), None => None::<u64> };
        lemma_leaf_fits_next(nx, entries_view(entries@));
    }
    assert(entries_view(entries@)[pos] == e);
    assert(leaf_insert(e0, e) == entries_view(entries@));
    if entries.len() <= MAX_KEYS {
        let ghost ev = entries_view(entries@);
        let ghost nv = NodeView::Leaf { next_leaf: next_view(next_leaf), entries: ev };
        store_node(store, page_id, &BTreeNode::Leaf { next_leaf, entries })?;
        proof {
            if old(store).modeled() {
                assert(ev[pos] == e);
                assert(leaf_holds(store.pages(), page_id.0, k, row_id));
            }
        }
        return Ok(None);
    }
    let right_page_id = store.allocate_page()?;
    let ghost ev = entries_view(entries@);
    let ghost h = (entries@.len() / 2) as int;
    let (left_entries, right_entries, separator) = split_leaf(entries);
    proof {
        let nx = match next_leaf { Some(p) => Some(p.0), None => None::<u64> };
        lemma_leaf_fits_next(Some(right_page_id.0), entries_view(left_entries@));
        lemma_leaf_fits_next(nx, entries_view(right_entries@));
    }
    let ghost lv = entries_view(left_entries@);
    let ghost rv = entries_view(right_entries@);
    let left = BTreeNode::Leaf { next_leaf: Some(right_page_id), entries: left_entries };
    let right = BTreeNode::Leaf { next_leaf, entries: right_entries };
    store_node(store, page_id, &left)?;
    let ghost mid = store.pages();
    store_node(store, right_page_id, &right)?;
    proof {
        if old(store).modeled() && old(store).allocates_fresh() && old(store).allocated(page_id.0) {
            assert(right_page_id.0 != page_id.0);
            if pos < h {
                assert(lv[pos] == e);
                assert(store.pages()[page_id.0] == mid[page_id.0]);
                assert(leaf_holds(store.pages(), page_id.0, k, row_id));
            } else {
                assert(rv.len() == ev.len() - h);
                assert(0 <= pos - h < rv.len());
                assert(rv[pos - h] == e);
                assert(page_node(store.pages()[right_page_id.0]) == Some(right@));
                assert(right@ == NodeView::Leaf { next_leaf: right@->next_leaf, entries: rv });
                assert(leaf_holds(store.pages(), right_page_id.0, k, row_id));
            }
            let halves = leaf_halves(ev, next_view(next_leaf), right_page_id.0);
            assert(left@ == halves.0);
            assert(right@ == halves.1);
            assert(store.pages() =~= old(store).pages().insert(page_id.0, store.pages()[page_id.0])
                .insert(right_page_id.0, store.pages()[right_page_id.0]));
        }
    }
    Ok(Some(SplitResult { separator, right_page_id }))
}

fn absorb_child_split<S: BPlusTreePageStore>(
    store: &mut S,
    page_id: PageId,
    keys: Vec<IndexKey>,
    children: Vec<PageId>,
    child_index: usize,
    split: SplitResult,
) -> (r: DbResult<Option<SplitResult>>)
    requires
        old(store).store_ok(),
        children@.len() == keys@.len() + 1,
        child_index <= keys@.len(),
    ensures
        final(store).store_ok(),
        final(store).modeled() == old(store).modeled(),
        forall|i: u64| old(store).allocated(i) ==> #[trigger] final(store).allocated(i),
        old(store).allocates_fresh() && old(store).allocated(page_id.0) ==> final(store).allocates_fresh(),
        old(store).modeled() && old(store).allocates_fresh() && old(store).allocated(page_id.0) ==> forall|i: u64|
            #![trigger final(store).pages()[i]]
            old(store).allocated(i) && i != page_id.0 && old(store).pages().contains_key(i)
                ==> final(store).pages().contains_key(i) && final(store).pages()[i] == old(store).pages()[i],
        final(store).backing() == old(store).backing(),
        final(store).writable() == old(store).writable(),
        old(store).modeled() && old(store).writable() ==> (r is Ok <==> internal_write_ok(
            keys_view(keys@).insert(child_index as int, split.separator@),
            page_ids_view(children@).insert(child_index + 1, split.right_page_id.0),
            old(store).alloc_budget() > 0,
        )),
        old(store).modeled() && old(store).writable() ==> final(store).alloc_budget() + 1 >= old(store).alloc_budget(),
        r matches Ok(None) ==> keys@.len() + 1 <= MAX_KEYS
            && (old(store).modeled() ==> node_written(old(store).pages(), final(store).pages(), page_id.0, NodeView::Internal {
                keys: keys_view(keys@).insert(child_index as int, split.separator@),
                children: page_ids_view(children@).insert(child_index + 1, split.right_page_id.0),
            })),
        r matches Ok(Some(sp)) ==> keys@.len() + 1 > MAX_KEYS
            && sp.separator@ == keys_view(keys@).insert(child_index as int, split.separator@)[((keys@.len() + 1) / 2) as int]
            && (old(store).allocates_fresh() ==> !old(store).allocated(sp.right_page_id.0)),
        r matches Ok(Some(sp)) ==> old(store).modeled() && old(store).allocates_fresh() && old(store).allocated(page_id.0) ==> {
            let halves = internal_halves(
                keys_view(keys@).insert(child_index as int, split.separator@),
                page_ids_view(children@).insert(child_index + 1, split.right_page_id.0),
            );
            split_written(old(store).pages(), final(store).pages(), page_id.0, halves.0, sp.right_page_id.0, halves.1)
        },
{
    let ghost ks = keys_view(keys@).insert(child_index as int, split.separator@);
    let ghost cs = page_ids_view(children@).insert(child_index + 1, split.right_page_id.0);
    let mut keys = keys;
    let mut children = children;
    let _child_count = children.len();
    keys.insert(child_index, split.separator);
    children.insert(child_index + 1, split.right_page_id);
    assert(keys_view(keys@) =~= ks);
    assert(page_ids_view(children@) =~= cs);
    if keys.len() <= MAX_KEYS {
        store_node(store, page_id, &BTreeNode::Internal { keys, children })?;
        return Ok(None);
    }
    let (left_keys, left_children, separator, right_keys, right_children) = split_internal(keys, children);
    proof {
        let m = (ks.len() / 2) as int;
        assert(page_ids_view(left_children@) =~= cs.subrange(0, m + 1));
        assert(page_ids_view(right_children@) =~= cs.subrange(m + 1, cs.len() as int));
    }
    let right_page_id = store.allocate_page()?;
    let left = BTreeNode::Internal { keys: left_keys, children: left_children };
    let right = BTreeNode::Internal { keys: right_keys, children: right_children };
    store_node(store, page_id, &left)?;
    let ghost mid = store.pages();
    store_node(store, right_page_id, &right)?;
    proof {
        if old(store).modeled() && old(store).allocates_fresh() && old(store).allocated(page_id.0) {
            assert(right_page_id.0 != page_id.0);
            let halves = internal_halves(ks, cs);
            assert(left@ == halves.0);
            assert(right@ == halves.1);
            assert(store.pages()[page_id.0] == mid[page_id.0]);
            assert(store.pages() =~= old(store).pages().insert(page_id.0, store.pages()[page_id.0])
                .insert(right_page_id.0, store.pages()[right_page_id.0]));
        }
    }
    Ok(Some(SplitResult { separator, right_page_id }))
}

#[verifier::spinoff_prover]
#[verifier::rlimit(100)]
/// Insert into the subtree under an internal node with `keys` and
/// `children`, read from page `page_id`: the entry goes to the child a
/// search for its key descends into, and a split of that child is absorbed.
#[verifier::spinoff_prover]
#[verifier::rlimit(100)]
fn insert_into_internal<S: BPlusTreePageStore>(
    store: &mut S,
    page_id: PageId,
    keys: Vec<IndexKey>,
    children: Vec<PageId>,
    key: IndexKey,
    row_id: RowId,
    depth: u32,
) -> (r: DbResult<Option<SplitResult>>)
    requires
        old(store).store_ok(),
        depth > 0,
        old(store).modeled() ==> old(store).pages().contains_key(page_id.0)
            && page_node(old(store).pages()[page_id.0]) == Some(NodeView::Internal { keys: keys_view(keys@), children: page_ids_view(children@) }),
        old(store).allocates_fresh() ==> old(store).allocated(page_id.0),
    ensures
        final(store).store_ok(),
        final(store).modeled() == old(store).modeled(),
        forall|i: u64| old(store).allocated(i) ==> #[trigger] final(store).allocated(i),
        old(store).allocates_fresh() ==> final(store).allocates_fresh(),
        old(store).modeled() && old(store).allocates_fresh() && r is Ok
            ==> exists|id: u64| #[trigger] leaf_holds(final(store).pages(), id, key@, row_id) && final(store).allocated(id)
                && (!old(store).allocated(id) || leaf_page(old(store).pages(), id)),
        final(store).backing() == old(store).backing(),
        final(store).writable() == old(store).writable(),
        old(store).modeled() && depth > 0 && bad_internal_at(old(store).pages(), page_id.0)
            ==> r is Err && r->Err_0 is Corruption && final(store).pages() == old(store).pages(),
        r matches Ok(sp) ==> (old(store).modeled() ==> leaf_insert_outcome(old(store).pages(), final(store).pages(),
            page_id.0, EntryView { key: key@, row_id }, split_view(sp), old(store).allocates_fresh())),
        r matches Ok(Some(sp)) ==> (old(store).allocates_fresh() ==> !old(store).allocated(sp.right_page_id.0)),
        old(store).allocates_fresh() && r is Ok ==> old(store).allocated(page_id.0),
        old(store).modeled() && old(store).writable() && insert_ok(old(store).pages(), page_id.0, EntryView { key: key@, row_id }, depth as nat)
            && old(store).alloc_budget() >= depth ==> {
            &&& r is Ok
            &&& final(store).alloc_budget() + depth >= old(store).alloc_budget()
            &&& r matches Ok(sp) && split_key(old(store).pages(), page_id.0, EntryView { key: key@, row_id }, depth as nat)
                == (match sp { Some(x) => Some(x.separator@), None => None::<KeyView> })
        },
        r matches Ok(sp) ==> (old(store).modeled() && old(store).allocates_fresh() ==> exists|t: InsertTrace|
            #[trigger] insert_outcome(old(store).pages(), final(store).pages(), page_id.0, EntryView { key: key@, row_id },
                split_view(sp), depth as nat, t)),
    decreases depth, 0nat,
{
    let ghost k = key@;
        validate_internal_shape(&keys, &children)?;
        let child_index = child_index_for_key(&keys, &key);
        let child_page_id = children[child_index];
        let ghost before = store.pages();
        let ghost kv = keys_view(keys@);
        let ghost cv = page_ids_view(children@);
        proof {
            lemma_child_pos(kv, k, child_index as int, 0);
            assert(cv[child_index as int] == child_page_id.0);
            if old(store).modeled() {
                assert(page_node(old(store).pages()[page_id.0]) == Some(NodeView::Internal { keys: kv, children: cv }));
                lemma_insert_ok_internal(old(store).pages(), page_id.0, EntryView { key: k, row_id }, depth as nat, kv, cv);
            }
        }
        let child_r = insert_recursive(store, child_page_id, key, row_id, depth - 1);
        let ghost mid_pages = store.pages();
        let ghost e = EntryView { key: k, row_id };
        let ghost csv = match &child_r { Ok(sp) => split_view(*sp), Err(_) => None };
        match child_r? {
            Some(split) => {
                let ghost mid = *store;
                let ghost sep = split.separator@;
                let ghost right = split.right_page_id.0;
                proof {
                    if old(store).modeled() && old(store).writable()
                        && insert_ok(old(store).pages(), page_id.0, EntryView { key: k, row_id }, depth as nat)
                        && old(store).alloc_budget() >= depth {
                        assert(internal_write_ok(kv.insert(child_index as int, sep), cv.insert(child_index + 1, right), true));
                    }
                }
                let ghost nkeys = keys@.len();
                let r = absorb_child_split(store, page_id, keys, children, child_index, split);
                proof {
                    if old(store).modeled() && old(store).writable()
                        && insert_ok(old(store).pages(), page_id.0, e, depth as nat)
                        && old(store).alloc_budget() >= depth {
                        assert(csv == Some((sep, right)));
                        assert(split_key(old(store).pages(), child_page_id.0, e, (depth - 1) as nat) == Some(sep));
                        assert(mid.alloc_budget() >= 1);
                        assert(r is Ok);
                        let ks = kv.insert(child_index as int, sep);
                        assert(ks.len() == nkeys + 1);
                        assert(split_key(old(store).pages(), page_id.0, e, depth as nat)
                            == (if ks.len() > MAX_KEYS { Some(ks[(ks.len() / 2) as int]) } else { None }));
                    }
                }
                proof {
                    if old(store).modeled() && old(store).allocates_fresh() && r is Ok {
                        assert(page_node(old(store).pages()[page_id.0]) == Some(NodeView::Internal { keys: kv, children: cv }));
                        let tc = choose|t: InsertTrace| #[trigger] insert_outcome(old(store).pages(), mid_pages, cv[child_pos(kv, k)],
                            e, csv, (depth - 1) as nat, t);
                        assert(csv == Some((sep, right)));
                        assert(absorb_outcome(mid_pages, store.pages(), page_id.0, kv.insert(child_index as int, sep),
                            cv.insert(child_index + 1, right), split_view(r->Ok_0)));
                        lemma_internal_outcome(old(store).pages(), mid_pages, store.pages(), page_id.0, kv, cv, e, csv,
                            split_view(r->Ok_0), depth as nat, tc);
                    }
                }
                proof {
                    if old(store).modeled() && old(store).allocates_fresh() && r is Ok {
                        let id = choose|id: u64| #[trigger] leaf_holds(mid.pages(), id, k, row_id) && mid.allocated(id)
                            && (!old(store).allocated(id) || leaf_page(old(store).pages(), id));
                        assert(page_node(old(store).pages()[page_id.0]) matches Some(NodeView::Internal { .. }));
                        assert(id != page_id.0);
                        assert(store.pages()[id] == mid.pages()[id]);
                        assert(leaf_holds(store.pages(), id, k, row_id));
                    }
                }
                r
            },
            None => {
                proof {
                    if old(store).modeled() && old(store).writable()
                        && insert_ok(old(store).pages(), page_id.0, e, depth as nat)
                        && old(store).alloc_budget() >= depth {
                        assert(csv is None);
                        assert(split_key(old(store).pages(), child_page_id.0, e, (depth - 1) as nat) is None);
                    }
                    if old(store).modeled() && old(store).allocates_fresh() {
                        assert(page_node(old(store).pages()[page_id.0]) == Some(NodeView::Internal { keys: kv, children: cv }));
                        let tc = choose|t: InsertTrace| #[trigger] insert_outcome(old(store).pages(), mid_pages, cv[child_pos(kv, k)],
                            e, csv, (depth - 1) as nat, t);
                        lemma_internal_outcome(old(store).pages(), mid_pages, store.pages(), page_id.0, kv, cv, e, None,
                            None, depth as nat, tc);
                    }
                }
                Ok(None)
            },
        }
}

fn insert_recursive<S: BPlusTreePageStore>(
    store: &mut S,
    page_id: PageId,
    key: IndexKey,
    row_id: RowId,
    depth: u32,
) -> (r: DbResult<Option<SplitResult>>)
    requires
        old(store).store_ok(),
    ensures
        final(store).store_ok(),
        final(store).modeled() == old(store).modeled(),
        forall|i: u64| old(store).allocated(i) ==> #[trigger] final(store).allocated(i),
        old(store).allocates_fresh() ==> final(store).allocates_fresh(),
        old(store).modeled() && old(store).allocates_fresh() && r is Ok
            ==> exists|id: u64| #[trigger] leaf_holds(final(store).pages(), id, key@, row_id) && final(store).allocated(id)
                && (!old(store).allocated(id) || leaf_page(old(store).pages(), id)),
        final(store).backing() == old(store).backing(),
        final(store).writable() == old(store).writable(),
        depth == 0 ==> r is Err && r->Err_0 is Corruption && (old(store).modeled() ==> final(store).pages() == old(store).pages()),
        old(store).modeled() && depth > 0 && !old(store).pages().contains_key(page_id.0) ==> r is Err,
        old(store).modeled() && depth > 0 && bad_internal_at(old(store).pages(), page_id.0)
            ==> r is Err && r->Err_0 is Corruption && final(store).pages() == old(store).pages(),
        r matches Ok(sp) ==> (old(store).modeled() ==> leaf_insert_outcome(old(store).pages(), final(store).pages(),
            page_id.0, EntryView { key: key@, row_id }, split_view(sp), old(store).allocates_fresh())),
        r matches Ok(Some(sp)) ==> (old(store).allocates_fresh() ==> !old(store).allocated(sp.right_page_id.0)),
        old(store).allocates_fresh() && r is Ok ==> old(store).allocated(page_id.0),
        old(store).modeled() && old(store).writable() && insert_ok(old(store).pages(), page_id.0, EntryView { key: key@, row_id }, depth as nat)
            && old(store).alloc_budget() >= depth ==> {
            &&& r is Ok
            &&& final(store).alloc_budget() + depth >= old(store).alloc_budget()
            &&& r matches Ok(sp) && split_key(old(store).pages(), page_id.0, EntryView { key: key@, row_id }, depth as nat)
                == (match sp { Some(x) => Some(x.separator@), None => None::<KeyView> })
        },
        r matches Ok(sp) ==> (old(store).modeled() && old(store).allocates_fresh() ==> exists|t: InsertTrace|
            #[trigger] insert_outcome(old(store).pages(), final(store).pages(), page_id.0, EntryView { key: key@, row_id },
                split_view(sp), depth as nat, t)),
    decreases depth, 1nat,
{
    if depth == 0 {
        return Err(corruption("B+Tree is deeper than supported"));
    }
    let ghost k = key@;
    let page = store.load_page(page_id)?;
    let node = node_from_page(&page)?;
    match node {
        BTreeNode::Leaf { next_leaf, entries } => {
            let ghost ev = entries_view(entries@);
            let ghost nx = next_view(next_leaf);
            let r = insert_into_leaf(store, page_id, next_leaf, entries, key, row_id);
            proof {
                if old(store).modeled() && old(store).allocates_fresh() && r is Ok {
                    assert(leaf_page(old(store).pages(), page_id.0));
                }
                if old(store).modeled() {
                    assert(page_node(old(store).pages()[page_id.0]) == Some(NodeView::Leaf { next_leaf: nx, entries: ev }));
                    lemma_insert_ok_leaf(old(store).pages(), page_id.0, EntryView { key: k, row_id }, depth as nat, nx, ev);
                    if old(store).allocates_fresh() && r is Ok {
                        assert(old(store).pages().contains_key(page_id.0));
                        assert(leaf_insert_outcome(old(store).pages(), store.pages(), page_id.0, EntryView { key: k, row_id },
                            split_view(r->Ok_0), true));
                        assert(insert_outcome(old(store).pages(), store.pages(), page_id.0, EntryView { key: k, row_id },
                            split_view(r->Ok_0), depth as nat, Seq::empty()));
                    }
                }
            }
            r
        },
        BTreeNode::Internal { keys, children } => {
            insert_into_internal(store, page_id, keys, children, key, row_id, depth)
        },
    }
}

/// Insert one `(key, RowId)` pair and return the current root page id.
///
/// The root page id changes only when the previous root splits; then a new
/// internal root with the old root and its new right sibling is allocated.
/// Over a store that models its pages and allocates fresh ids, the pages
/// afterwards are exactly what `insert_outcome` and `root_outcome` say, and
/// the entry is held in a leaf page of the store. Over a writable store with
/// a page id per level to hand out, the insert succeeds wherever
/// `insert_ok` holds and a new root would fit its page.
pub fn insert<S: BPlusTreePageStore>(store: &mut S, root_page_id: PageId, key: IndexKey, row_id: RowId) -> (r: DbResult<PageId>)
    requires
        old(store).store_ok(),
    ensures
        final(store).store_ok(),
        final(store).modeled() == old(store).modeled(),
        old(store).allocates_fresh() ==> final(store).allocates_fresh(),
        old(store).modeled() && old(store).allocates_fresh() && r is Ok ==> row_held(final(store).pages(), key@, row_id),
        old(store).modeled() && old(store).allocates_fresh() && r is Ok ==> exists|id: u64|
            #[trigger] leaf_holds(final(store).pages(), id, key@, row_id)
                && (!old(store).allocated(id) || leaf_page(old(store).pages(), id)),
        final(store).backing() == old(store).backing(),
        final(store).writable() == old(store).writable(),
        r matches Ok(root) ==> (old(store).modeled() && old(store).allocates_fresh()
            ==> leaf_root_kept(old(store).pages(), root_page_id.0, EntryView { key: key@, row_id }, root.0)),
        forall|i: u64| old(store).allocated(i) ==> #[trigger] final(store).allocated(i),
        r matches Ok(root) ==> (old(store).modeled() && old(store).allocates_fresh() ==> exists|mid: Map<u64, Seq<u8>>,
            split: Option<(KeyView, u64)>, t: InsertTrace|
            #[trigger] insert_outcome(old(store).pages(), mid, root_page_id.0, EntryView { key: key@, row_id }, split,
                MAX_DEPTH as nat, t) && root_outcome(mid, final(store).pages(), root_page_id.0, split, root.0)),
        r matches Ok(root) ==> root == root_page_id || {
            &&& old(store).allocates_fresh() ==> !old(store).allocated(root.0)
            &&& old(store).modeled() ==> final(store).pages().contains_key(root.0)
                && exists|sep: KeyView, right: u64| page_node(final(store).pages()[root.0])
                    == Some(NodeView::Internal { keys: seq![sep], children: seq![root_page_id.0, right] })
        },
        old(store).modeled() && old(store).writable()
            && insert_ok(old(store).pages(), root_page_id.0, EntryView { key: key@, row_id }, MAX_DEPTH as nat)
            && old(store).alloc_budget() > MAX_DEPTH
            && (split_key(old(store).pages(), root_page_id.0, EntryView { key: key@, row_id }, MAX_DEPTH as nat) matches Some(sep)
                ==> forall|right: u64| #[trigger] node_page_ok(new_root_node(sep, root_page_id.0, right)))
            ==> r is Ok,
{
    let ghost k = key@;
    let ghost e = EntryView { key: k, row_id };
    let top = insert_recursive(store, root_page_id, key, row_id, MAX_DEPTH);
    let ghost mid_pages = store.pages();
    let ghost tsv = match &top { Ok(sp) => split_view(*sp), Err(_) => None };
    match top? {
        Some(split) => {
            let ghost mid = *store;
            let new_root_page_id = store.allocate_page()?;
            let ghost sep = split.separator@;
            let ghost right = split.right_page_id.0;
            let mut keys: Vec<IndexKey> = Vec::new();
            keys.push(split.separator);
            let mut children: Vec<PageId> = Vec::new();
            children.push(root_page_id);
            children.push(split.right_page_id);
            assert(keys_view(keys@) =~= seq![sep]);
            assert(page_ids_view(children@) =~= seq![root_page_id.0, right]);
            let root_node = BTreeNode::Internal { keys, children };
            assert(root_node@ == NodeView::Internal { keys: seq![sep], children: seq![root_page_id.0, right] });
            proof {
                if old(store).modeled() && old(store).writable()
                    && insert_ok(old(store).pages(), root_page_id.0, EntryView { key: k, row_id }, MAX_DEPTH as nat)
                    && old(store).alloc_budget() > MAX_DEPTH
                    && (split_key(old(store).pages(), root_page_id.0, EntryView { key: k, row_id }, MAX_DEPTH as nat) matches Some(sp)
                        ==> forall|rt: u64| #[trigger] node_page_ok(new_root_node(sp, root_page_id.0, rt))) {
                    assert(split_key(old(store).pages(), root_page_id.0, EntryView { key: k, row_id }, MAX_DEPTH as nat) == Some(sep));
                    assert(node_page_ok(new_root_node(sep, root_page_id.0, right)));
                }
            }
            store_node(store, new_root_page_id, &root_node)?;
            proof {
                if old(store).allocates_fresh() {
                    assert(new_root_page_id.0 != root_page_id.0);
                }
                if old(store).modeled() && old(store).allocates_fresh() {
                    let id = choose|id: u64| #[trigger] leaf_holds(mid.pages(), id, k, row_id) && mid.allocated(id)
                        && (!old(store).allocated(id) || leaf_page(old(store).pages(), id));
                    assert(id != new_root_page_id.0);
                    assert(leaf_holds(store.pages(), id, k, row_id));
                    let t = choose|t: InsertTrace| #[trigger] insert_outcome(old(store).pages(), mid_pages, root_page_id.0, e,
                        tsv, MAX_DEPTH as nat, t);
                    assert(tsv == Some((sep, right)));
                    assert(root_outcome(mid_pages, store.pages(), root_page_id.0, tsv, new_root_page_id.0));
                }
            }
            Ok(new_root_page_id)
        },
        None => {
            proof {
                if old(store).modeled() && old(store).allocates_fresh() {
                    let t = choose|t: InsertTrace| #[trigger] insert_outcome(old(store).pages(), mid_pages, root_page_id.0, e,
                        tsv, MAX_DEPTH as nat, t);
                    assert(root_outcome(mid_pages, store.pages(), root_page_id.0, tsv, root_page_id.0));
                }
            }
            Ok(root_page_id)
        },
    }
}

/// Index of the first separator of `keys` at or after `i` that is not below
/// `key`, or the number of separators.
pub open spec fn child_pos_from(keys: Seq<KeyView>, key: KeyView, i: int) -> int
    decreases keys.len() - i,
{
    if i >= keys.len() || i < 0 {
        keys.len() as int
    } else if !key_lt(keys[i], key) {
        i
    } else {
        child_pos_from(keys, key, i + 1)
    }
}

/// The child of an internal node that a search for `key` descends into.
pub open spec fn child_pos(keys: Seq<KeyView>, key: KeyView) -> int {
    child_pos_from(keys, key, 0)
}

proof fn lemma_child_pos(keys: Seq<KeyView>, key: KeyView, r: int, i: int)
    requires
        0 <= i <= r <= keys.len(),
        forall|j: int| 0 <= j < r ==> #[trigger] key_lt(keys[j], key),
        r < keys.len() ==> !key_lt(keys[r], key),
    ensures
        child_pos_from(keys, key, i) == r,
    decreases r - i,
{
    if i < r {
        lemma_child_pos(keys, key, r, i + 1);
    }
}

/// The leaf that a search for `key` reaches from page `id`, following at most
/// `fuel` pages; `None` when a page is missing or not a node, an internal
/// node has the wrong shape, or the fuel runs out.
pub open spec fn descend(pages: Map<u64, Seq<u8>>, id: u64, key: KeyView, fuel: nat) -> Option<u64>
    decreases fuel,
{
    if fuel == 0 || !pages.contains_key(id) {
        None
    } else {
        match page_node(pages[id]) {
            Some(NodeView::Leaf { .. }) => Some(id),
            Some(NodeView::Internal { keys, children }) => if children.len() == keys.len() + 1 {
                descend(pages, children[child_pos(keys, key)], key, (fuel - 1) as nat)
            } else {
                None
            },
            None => None,
        }
    }
}

/// Index of the first entry of `es` at or after `i` whose key is above `key`,
/// or the number of entries.
pub open spec fn stop_pos_from(es: Seq<EntryView>, key: KeyView, i: int) -> int
    decreases es.len() - i,
{
    if i >= es.len() || i < 0 {
        es.len() as int
    } else if key_lt(key, es[i].key) {
        i
    } else {
        stop_pos_from(es, key, i + 1)
    }
}

proof fn lemma_stop_pos(es: Seq<EntryView>, key: KeyView, k: int, i: int)
    requires
        0 <= i <= k,
        scan_stop(es, key, k),
    ensures
        stop_pos_from(es, key, i) == k,
    decreases k - i,
{
    if i < k {
        assert(!key_lt(key, es[i].key));
        lemma_stop_pos(es, key, k, i + 1);
    }
}

/// The row ids that a scan for `key` collects from leaf `id` on, following
/// the leaf chain through at most `fuel` pages: in each leaf the rows of the
/// entries with key `key` before the first greater key, stopping at a greater
/// key or the last leaf; `None` when a page is missing, is not a leaf, or the
/// fuel runs out.
pub open spec fn scan_chain(pages: Map<u64, Seq<u8>>, id: u64, key: KeyView, fuel: nat) -> Option<Seq<RowId>>
    decreases fuel,
{
    if fuel == 0 || !pages.contains_key(id) {
        None
    } else {
        match page_node(pages[id]) {
            Some(NodeView::Leaf { next_leaf, entries }) => {
                let k = stop_pos_from(entries, key, 0);
                let rows = rows_with_key(entries.subrange(0, k), key);
                if k < entries.len() {
                    Some(rows)
                } else {
                    match next_leaf {
                        Some(n) => match scan_chain(pages, n, key, (fuel - 1) as nat) {
                            Some(rest) => Some(rows + rest),
                            None => None,
                        },
                        None => Some(rows),
                    }
                }
            },
            _ => None,
        }
    }
}

/// `p` followed by the rows of `o`, if any.
pub open spec fn prepend_rows(p: Seq<RowId>, o: Option<Seq<RowId>>) -> Option<Seq<RowId>> {
    match o {
        Some(rest) => Some(p + rest),
        None => None,
    }
}

/// What a lookup of `key` from root `root` answers over `pages`.
pub open spec fn lookup_spec(pages: Map<u64, Seq<u8>>, root: u64, key: KeyView) -> Option<Seq<RowId>> {
    match descend(pages, root, key, MAX_DEPTH as nat) {
        Some(leaf) => scan_chain(pages, leaf, key, u64::MAX as nat),
        None => None,
    }
}

fn find_leaf<S: BPlusTreePageStore>(store: &mut S, root_page_id: PageId, key: &IndexKey) -> (r: DbResult<PageId>)
    requires
        old(store).store_ok(),
    ensures
        final(store).store_ok(),
        final(store).modeled() == old(store).modeled(),
        old(store).modeled() ==> final(store).pages() == old(store).pages(),
        old(store).modeled() ==> match descend(old(store).pages(), root_page_id.0, key@, MAX_DEPTH as nat) {
            Some(l) => r matches Ok(x) && x.0 == l,
            None => r is Err,
        },
{
    let mut page_id = root_page_id;
    let mut depth: u32 = 0;
    let ghost pages = store.pages();
    while depth < MAX_DEPTH
        invariant
            store.store_ok(),
            store.modeled() == old(store).modeled(),
            pages == old(store).pages(),
            old(store).modeled() ==> store.pages() == pages,
            depth <= MAX_DEPTH,
            old(store).modeled() ==> descend(pages, root_page_id.0, key@, MAX_DEPTH as nat)
                == descend(pages, page_id.0, key@, (MAX_DEPTH - depth) as nat),
        decreases MAX_DEPTH - depth,
    {
        let page = store.load_page(page_id)?;
        let node = node_from_page(&page)?;
        match node {
            BTreeNode::Leaf { .. } => {
                return Ok(page_id);
            },
            BTreeNode::Internal { keys, children } => {
                validate_internal_shape(&keys, &children)?;
                let child_index = child_index_for_key(&keys, key);
                proof {
                    lemma_child_pos(keys_view(keys@), key@, child_index as int, 0);
                    assert(page_ids_view(children@)[child_index as int] == children@[child_index as int].0);
                }
                page_id = children[child_index];
            },
        }
        depth = depth + 1;
    }
    Err(corruption("B+Tree is deeper than supported"))
}

/// Row ids gathered from the leaf at `pid` for `key`, after ones that each
/// stand in some leaf under `key`, each stand in some leaf under `key`.
proof fn lemma_leaf_rows_held(
    pages: Map<u64, Seq<u8>>,
    pid: u64,
    key: KeyView,
    es: Seq<EntryView>,
    before: Seq<RowId>,
    after: Seq<RowId>,
    k: int,
)
    requires
        pages.contains_key(pid),
        page_node(pages[pid]) matches Some(NodeView::Leaf { entries, .. }) && entries == es,
        scan_stop(es, key, k),
        after == before + rows_with_key(es.subrange(0, k), key),
        forall|j: int| 0 <= j < before.len() ==> #[trigger] row_held(pages, key, before[j]),
    ensures
        forall|j: int| 0 <= j < after.len() ==> #[trigger] row_held(pages, key, after[j]),
{
    let found = rows_with_key(es.subrange(0, k), key);
    lemma_rows_with_key_from(es.subrange(0, k), key);
    assert forall|j: int| 0 <= j < after.len() implies #[trigger] row_held(pages, key, after[j]) by {
        if j >= before.len() {
            let t = j - before.len();
            assert(after[j] == found[t]);
            let i = choose|i: int| 0 <= i < k && #[trigger] es.subrange(0, k)[i] == (EntryView { key, row_id: found[t] });
            assert(es[i] == es.subrange(0, k)[i]);
            assert(leaf_holds(pages, pid, key, after[j]));
        } else {
            assert(after[j] == before[j]);
            assert(row_held(pages, key, before[j]));
        }
    }
}

/// Look up all row ids equal to `key`, following the leaf chain to the right
/// until a greater key or the last leaf.
pub fn lookup<S: BPlusTreePageStore>(store: &mut S, root_page_id: PageId, key: &IndexKey) -> (r: DbResult<Vec<RowId>>)
    requires
        old(store).store_ok(),
    ensures
        final(store).store_ok(),
        final(store).modeled() == old(store).modeled(),
        old(store).modeled() ==> final(store).pages() == old(store).pages(),
        old(store).modeled() ==> (r matches Ok(rows) ==> forall|j: int| 0 <= j < rows@.len()
            ==> #[trigger] row_held(old(store).pages(), key@, rows@[j])),
        old(store).modeled() ==> match lookup_spec(old(store).pages(), root_page_id.0, key@) {
            Some(rows) => r matches Ok(x) && x@ == rows,
            None => r is Err,
        },
{
    let ghost pages = store.pages();
    let mut leaf_page_id = find_leaf(store, root_page_id, key)?;
    let ghost leaf0 = leaf_page_id.0;
    let mut row_ids: Vec<RowId> = Vec::new();
    let mut steps: u64 = 0;
    proof {
        if old(store).modeled() {
            assert(prepend_rows(row_ids@, scan_chain(pages, leaf0, key@, u64::MAX as nat))
                =~= scan_chain(pages, leaf0, key@, u64::MAX as nat)) by {
                match scan_chain(pages, leaf0, key@, u64::MAX as nat) {
                    Some(rest) => { assert(row_ids@ + rest =~= rest); },
                    None => {},
                }
            }
        }
    }
    while steps < u64::MAX
        invariant
            store.store_ok(),
            store.modeled() == old(store).modeled(),
            pages == old(store).pages(),
            old(store).modeled() ==> store.pages() == old(store).pages(),
            old(store).modeled() ==> lookup_spec(pages, root_page_id.0, key@)
                == prepend_rows(row_ids@, scan_chain(pages, leaf_page_id.0, key@, (u64::MAX - steps) as nat)),
            old(store).modeled() ==> forall|j: int| 0 <= j < row_ids@.len()
                ==> #[trigger] row_held(old(store).pages(), key@, row_ids@[j]),
        decreases u64::MAX - steps,
    {
        let page = store.load_page(leaf_page_id)?;
        let node = node_from_page(&page)?;
        let ghost before = row_ids@;
        let ghost pid = leaf_page_id.0;
        match node {
            BTreeNode::Leaf { next_leaf, entries } => {
                let found = collect_equal(&entries, key, &mut row_ids);
                proof {
                    if old(store).modeled() {
                        let es = entries_view(entries@);
                        let k = choose|k: int| #[trigger] scan_stop(es, key@, k) && row_ids@ == before + rows_with_key(es.subrange(0, k), key@);
                        lemma_leaf_rows_held(old(store).pages(), pid, key@, es, before, row_ids@, k);
                        lemma_stop_pos(es, key@, k, 0);
                        let rows = rows_with_key(es.subrange(0, k), key@);
                        let fuel = (u64::MAX - steps) as nat;
                        let nx = match next_leaf { Some(p) => Some(p.0), None => None::<u64> };
                        assert(page_node(pages[pid]) == Some(NodeView::Leaf { next_leaf: nx, entries: es }));
                        if !found {
                            if let Some(n) = nx {
                                match scan_chain(pages, n, key@, (fuel - 1) as nat) {
                                    Some(rest) => { assert(before + (rows + rest) =~= row_ids@ + rest); },
                                    None => {},
                                }
                            } else {
                                assert(row_ids@ =~= before + rows);
                            }
                        }
                    }
                }
                if found {
                    return Ok(row_ids);
                }
                match next_leaf {
                    Some(next_page_id) => {
                        leaf_page_id = next_page_id;
                    },
                    None => {
                        return Ok(row_ids);
                    },
                }
            },
            BTreeNode::Internal { .. } => {
                return Err(corruption("B+Tree lookup reached a non-leaf page"));
            },
        }
        steps = steps + 1;
    }
    Err(corruption("B+Tree leaf chain does not end"))
}

// ---------------------------------------------------------------------------
// Well-formed trees and what a lookup answers on them.

/// The next-leaf link of page `id`, when it holds a leaf.
pub open spec fn next_of(pages: Map<u64, Seq<u8>>, id: u64) -> Option<u64> {
    match page_node(pages[id]) {
        Some(NodeView::Leaf { next_leaf, .. }) => next_leaf,
        _ => None,
    }
}

/// The entries of page `id`, when it holds a leaf.
pub open spec fn leaf_entries(pages: Map<u64, Seq<u8>>, id: u64) -> Seq<EntryView> {
    match page_node(pages[id]) {
        Some(NodeView::Leaf { entries, .. }) => entries,
        _ => Seq::empty(),
    }
}

/// The entries of leaves `ls`, leaf after leaf.
pub open spec fn entries_of(pages: Map<u64, Seq<u8>>, ls: Seq<u64>) -> Seq<EntryView>
    decreases ls.len(),
{
    if ls.len() == 0 {
        Seq::empty()
    } else {
        leaf_entries(pages, ls[0]) + entries_of(pages, ls.drop_first())
    }
}

/// The leaves of the subtree at page `id`, left to right, following at most
/// `d` levels; `None` when a page on the way is missing or not a node, an
/// internal node has not one more child than keys, or a child holds an entry
/// above the key that follows it.
pub open spec fn tree_leaves(pages: Map<u64, Seq<u8>>, id: u64, d: nat) -> Option<Seq<u64>>
    decreases d, 0int,
{
    if d == 0 || !pages.contains_key(id) {
        None
    } else {
        match page_node(pages[id]) {
            Some(NodeView::Leaf { .. }) => Some(seq![id]),
            Some(NodeView::Internal { keys, children }) => if children.len() == keys.len() + 1 {
                kids_leaves(pages, keys, children, 0, (d - 1) as nat)
            } else {
                None
            },
            None => None,
        }
    }
}

/// The leaves of children `i..` of an internal node with keys `keys`, left to
/// right, each child's entries at most the key after it.
pub open spec fn kids_leaves(pages: Map<u64, Seq<u8>>, keys: Seq<KeyView>, children: Seq<u64>, i: int, d: nat) -> Option<Seq<u64>>
    decreases d, children.len() - i + 1,
{
    if i < 0 || i >= children.len() {
        Some(Seq::empty())
    } else {
        match tree_leaves(pages, children[i], d) {
            Some(l) => if i < keys.len() && exists|m: int| 0 <= m < entries_of(pages, l).len()
                && key_lt(keys[i], #[trigger] entries_of(pages, l)[m].key) {
                None
            } else {
                match kids_leaves(pages, keys, children, i + 1, d) {
                    Some(rest) => Some(l + rest),
                    None => None,
                }
            },
            None => None,
        }
    }
}

/// Each entry is at or after every entry before it.
pub open spec fn keys_in_order(s: Seq<EntryView>) -> bool {
    forall|i: int, j: int| 0 <= i < j < s.len() ==> !key_lt((#[trigger] s[j]).key, (#[trigger] s[i]).key)
}

/// A well-formed B+Tree at page `root` of `pages`: at most `MAX_DEPTH`
/// levels of nodes in which every child's entries are at most the key that
/// follows it, leaves chained left to right with the last one ending the
/// chain, and the keys of its entries, leaf after leaf, in order.
pub open spec fn tree_wf(pages: Map<u64, Seq<u8>>, root: u64) -> bool {
    tree_leaves(pages, root, MAX_DEPTH as nat) matches Some(ls) && {
        &&& ls.len() < u64::MAX
        &&& forall|q: int| 0 <= q < ls.len() - 1 ==> #[trigger] next_of(pages, ls[q]) == Some(ls[q + 1])
        &&& next_of(pages, ls[ls.len() - 1]) is None
        &&& keys_in_order(entries_of(pages, ls))
    }
}

/// The entries of the tree at `root`, leaf after leaf.
pub open spec fn tree_entries(pages: Map<u64, Seq<u8>>, root: u64) -> Seq<EntryView> {
    entries_of(pages, tree_leaves(pages, root, MAX_DEPTH as nat)->0)
}

/// No entry of `s` has key `key`.
pub open spec fn no_key(s: Seq<EntryView>, key: KeyView) -> bool {
    forall|i: int| 0 <= i < s.len() ==> (#[trigger] s[i]).key != key
}

proof fn lemma_entries_of_concat(pages: Map<u64, Seq<u8>>, a: Seq<u64>, b: Seq<u64>)
    ensures
        entries_of(pages, a + b) == entries_of(pages, a) + entries_of(pages, b),
    decreases a.len(),
{
    if a.len() == 0 {
        assert(a + b =~= b);
    } else {
        assert((a + b).drop_first() =~= a.drop_first() + b);
        lemma_entries_of_concat(pages, a.drop_first(), b);
        assert(leaf_entries(pages, a[0]) + (entries_of(pages, a.drop_first()) + entries_of(pages, b))
            =~= (leaf_entries(pages, a[0]) + entries_of(pages, a.drop_first())) + entries_of(pages, b));
    }
}

proof fn lemma_rows_with_key_concat(a: Seq<EntryView>, b: Seq<EntryView>, key: KeyView)
    ensures
        rows_with_key(a + b, key) == rows_with_key(a, key) + rows_with_key(b, key),
    decreases b.len(),
{
    if b.len() == 0 {
        assert(a + b =~= a);
        assert(rows_with_key(a, key) + Seq::<RowId>::empty() =~= rows_with_key(a, key));
    } else {
        assert((a + b).drop_last() =~= a + b.drop_last());
        lemma_rows_with_key_concat(a, b.drop_last(), key);
        let tail = if b.last().key == key { seq![b.last().row_id] } else { Seq::<RowId>::empty() };
        assert((a + b).last() == b.last());
        assert(rows_with_key(a, key) + rows_with_key(b.drop_last(), key) + tail
            =~= rows_with_key(a, key) + (rows_with_key(b.drop_last(), key) + tail));
    }
}

proof fn lemma_rows_no_key(s: Seq<EntryView>, key: KeyView)
    requires
        no_key(s, key),
    ensures
        rows_with_key(s, key) == Seq::<RowId>::empty(),
    decreases s.len(),
{
    if s.len() > 0 {
        assert(s.last() == s[s.len() - 1]);
        lemma_rows_no_key(s.drop_last(), key);
    }
}

/// The children before the one a search for `key` descends into have keys
/// below `key`.
proof fn lemma_child_pos_below(keys: Seq<KeyView>, key: KeyView, i: int)
    requires
        0 <= i <= keys.len(),
    ensures
        i <= child_pos_from(keys, key, i) <= keys.len(),
        forall|j: int| i <= j < child_pos_from(keys, key, i) ==> #[trigger] key_lt(keys[j], key),
    decreases keys.len() - i,
{
    if i < keys.len() && key_lt(keys[i], key) {
        lemma_child_pos_below(keys, key, i + 1);
    }
}

/// The leaves of children `i..` come after those of the children before
/// `pos`, whose entries have no key `key`, and begin with the leaves of child
/// `pos`.
proof fn lemma_kids_split(pages: Map<u64, Seq<u8>>, keys: Seq<KeyView>, children: Seq<u64>, i: int, pos: int, d: nat, key: KeyView)
    requires
        0 <= i <= pos < children.len(),
        children.len() == keys.len() + 1,
        kids_leaves(pages, keys, children, i, d) is Some,
        forall|j: int| i <= j < pos ==> #[trigger] key_lt(keys[j], key),
    ensures
        tree_leaves(pages, children[pos], d) is Some,
        kids_leaves(pages, keys, children, pos + 1, d) is Some,
        exists|pre: Seq<u64>| #[trigger] no_key(entries_of(pages, pre), key) && kids_leaves(pages, keys, children, i, d)->0
            == pre + tree_leaves(pages, children[pos], d)->0 + kids_leaves(pages, keys, children, pos + 1, d)->0,
    decreases pos - i,
{
    let li = tree_leaves(pages, children[i], d)->0;
    if i == pos {
        let pre = Seq::<u64>::empty();
        assert(entries_of(pages, pre) =~= Seq::<EntryView>::empty());
        assert(no_key(entries_of(pages, pre), key));
        assert(kids_leaves(pages, keys, children, i, d)->0 =~= pre + li + kids_leaves(pages, keys, children, pos + 1, d)->0);
    } else {
        lemma_kids_split(pages, keys, children, i + 1, pos, d, key);
        let pre1 = choose|pre: Seq<u64>| #[trigger] no_key(entries_of(pages, pre), key) && kids_leaves(pages, keys, children, i + 1, d)->0
            == pre + tree_leaves(pages, children[pos], d)->0 + kids_leaves(pages, keys, children, pos + 1, d)->0;
        let pre = li + pre1;
        lemma_entries_of_concat(pages, li, pre1);
        let el = entries_of(pages, li);
        assert forall|m: int| 0 <= m < el.len() implies (#[trigger] el[m]).key != key by {
            assert(!key_lt(keys[i], el[m].key));
        }
        assert(no_key(entries_of(pages, pre), key)) by {
            let ep = entries_of(pages, pre);
            assert forall|m: int| 0 <= m < ep.len() implies (#[trigger] ep[m]).key != key by {
                if m < el.len() {
                    assert(ep[m] == el[m]);
                } else {
                    assert(ep[m] == entries_of(pages, pre1)[m - el.len()]);
                }
            }
        }
        assert(kids_leaves(pages, keys, children, i, d)->0 =~= pre + tree_leaves(pages, children[pos], d)->0
            + kids_leaves(pages, keys, children, pos + 1, d)->0);
    }
}

/// A search for `key` in a subtree with leaves `ls` reaches one of them, and
/// no leaf before it has an entry with key `key`.
proof fn lemma_descend_wf(pages: Map<u64, Seq<u8>>, id: u64, key: KeyView, d: nat) -> (p: int)
    requires
        tree_leaves(pages, id, d) is Some,
    ensures
        0 <= p < tree_leaves(pages, id, d)->0.len(),
        descend(pages, id, key, d) == Some(tree_leaves(pages, id, d)->0[p]),
        no_key(entries_of(pages, tree_leaves(pages, id, d)->0.subrange(0, p)), key),
    decreases d,
{
    let ls = tree_leaves(pages, id, d)->0;
    match page_node(pages[id]) {
        Some(NodeView::Leaf { .. }) => {
            assert(ls.subrange(0, 0) =~= Seq::<u64>::empty());
            assert(entries_of(pages, ls.subrange(0, 0)) =~= Seq::<EntryView>::empty());
            0
        },
        Some(NodeView::Internal { keys, children }) => {
            let pos = child_pos(keys, key);
            lemma_child_pos_below(keys, key, 0);
            let d1 = (d - 1) as nat;
            lemma_kids_split(pages, keys, children, 0, pos, d1, key);
            let pre = choose|pre: Seq<u64>| #[trigger] no_key(entries_of(pages, pre), key) && kids_leaves(pages, keys, children, 0, d1)->0
                == pre + tree_leaves(pages, children[pos], d1)->0 + kids_leaves(pages, keys, children, pos + 1, d1)->0;
            let lc = tree_leaves(pages, children[pos], d1)->0;
            let rest = kids_leaves(pages, keys, children, pos + 1, d1)->0;
            let q = lemma_descend_wf(pages, children[pos], key, d1);
            let p = pre.len() + q;
            assert(ls == pre + lc + rest);
            assert(ls[p] == lc[q]);
            assert(ls.subrange(0, p) =~= pre + lc.subrange(0, q));
            lemma_entries_of_concat(pages, pre, lc.subrange(0, q));
            let a = entries_of(pages, pre);
            let b = entries_of(pages, lc.subrange(0, q));
            assert forall|m: int| 0 <= m < (a + b).len() implies (#[trigger] (a + b)[m]).key != key by {
                if m < a.len() {
                    assert((a + b)[m] == a[m]);
                } else {
                    assert((a + b)[m] == b[m - a.len()]);
                }
            }
            p
        },
        None => 0,
    }
}

/// Leaves `ls.subrange(p, ..)` hold the entries `entries_of` gives after the
/// first `p` leaves.
proof fn lemma_entries_of_split(pages: Map<u64, Seq<u8>>, ls: Seq<u64>, p: int)
    requires
        0 <= p <= ls.len(),
    ensures
        entries_of(pages, ls) == entries_of(pages, ls.subrange(0, p)) + entries_of(pages, ls.subrange(p, ls.len() as int)),
        p < ls.len() ==> entries_of(pages, ls.subrange(p, ls.len() as int))
            == leaf_entries(pages, ls[p]) + entries_of(pages, ls.subrange(p + 1, ls.len() as int)),
{
    assert(ls =~= ls.subrange(0, p) + ls.subrange(p, ls.len() as int));
    lemma_entries_of_concat(pages, ls.subrange(0, p), ls.subrange(p, ls.len() as int));
    if p < ls.len() {
        assert(ls.subrange(p, ls.len() as int).drop_first() =~= ls.subrange(p + 1, ls.len() as int));
    }
}

/// Following the chain from leaf `p` of a chain of leaves in key order
/// collects exactly the rows with key `key` of the entries from leaf `p` on.
proof fn lemma_scan_chain_wf(pages: Map<u64, Seq<u8>>, ls: Seq<u64>, p: int, key: KeyView, fuel: nat)
    requires
        0 <= p < ls.len(),
        fuel >= ls.len() - p,
        forall|q: int| 0 <= q < ls.len() ==> pages.contains_key(#[trigger] ls[q])
            && page_node(pages[ls[q]]) is Some && page_node(pages[ls[q]])->0 is Leaf,
        forall|q: int| 0 <= q < ls.len() - 1 ==> #[trigger] next_of(pages, ls[q]) == Some(ls[q + 1]),
        next_of(pages, ls[ls.len() - 1]) is None,
        keys_in_order(entries_of(pages, ls.subrange(p, ls.len() as int))),
    ensures
        scan_chain(pages, ls[p], key, fuel) == Some(rows_with_key(entries_of(pages, ls.subrange(p, ls.len() as int)), key)),
    decreases ls.len() - p,
{
    let n = ls.len() as int;
    let id = ls[p];
    assert(pages.contains_key(id));
    let es = leaf_entries(pages, id);
    let after = entries_of(pages, ls.subrange(p + 1, n));
    lemma_entries_of_split(pages, ls.subrange(p, n), 1);
    assert(ls.subrange(p, n).subrange(1, n - p) =~= ls.subrange(p + 1, n));
    assert(ls.subrange(p, n).subrange(0, 1) =~= seq![id]);
    assert(entries_of(pages, seq![id]) =~= es) by {
        assert(seq![id].drop_first() =~= Seq::<u64>::empty());
    }
    let all = entries_of(pages, ls.subrange(p, n));
    assert(all == es + after);
    let k = stop_pos_from(es, key, 0);
    lemma_stop_pos_range(es, key, 0);
    let rows = rows_with_key(es.subrange(0, k), key);
    assert(es =~= es.subrange(0, k) + es.subrange(k, es.len() as int));
    lemma_rows_with_key_concat(es.subrange(0, k), es.subrange(k, es.len() as int), key);
    lemma_rows_with_key_concat(es, after, key);
    if k < es.len() {
        let tail = es.subrange(k, es.len() as int) + after;
        assert(key_lt(key, es[k].key));
        lemma_key_irrefl(key);
        assert forall|m: int| 0 <= m < tail.len() implies (#[trigger] tail[m]).key != key by {
            assert(all[k] == es[k]);
            if k + m < es.len() {
                assert(tail[m] == es[k + m]);
                assert(all[k + m] == es[k + m]);
            } else {
                assert(tail[m] == after[k + m - es.len()]);
                assert(all[k + m] == after[k + m - es.len()]);
            }
            assert(all[k + m] == tail[m]);
            if m > 0 {
                assert(!key_lt(all[k + m].key, all[k].key));
            }
        }
        lemma_rows_with_key_concat(es.subrange(k, es.len() as int), after, key);
        lemma_key_irrefl(key);
        lemma_rows_no_key(tail, key);
        assert(rows_with_key(es.subrange(k, es.len() as int), key) + rows_with_key(after, key) == rows_with_key(tail, key));
        assert(rows_with_key(all, key) =~= rows);
    } else {
        assert(es.subrange(0, k) =~= es);
        if p == n - 1 {
            assert(ls.subrange(p + 1, n) =~= Seq::<u64>::empty());
            assert(after =~= Seq::<EntryView>::empty());
            assert(rows_with_key(after, key) =~= Seq::<RowId>::empty());
            assert(rows_with_key(all, key) =~= rows);
        } else {
            assert(next_of(pages, ls[p]) == Some(ls[p + 1]));
            let sub = ls.subrange(p + 1, n);
            assert(keys_in_order(entries_of(pages, sub))) by {
                let e2 = entries_of(pages, sub);
                assert forall|i: int, j: int| 0 <= i < j < e2.len() implies !key_lt((#[trigger] e2[j]).key, (#[trigger] e2[i]).key) by {
                    assert(all[es.len() + i] == e2[i]);
                    assert(all[es.len() + j] == e2[j]);
                }
            }
            lemma_scan_chain_wf(pages, ls, p + 1, key, (fuel - 1) as nat);
        }
    }
}

/// Law (lookup on a well-formed tree): a lookup of `key` answers exactly the
/// row ids of the tree's entries with that key, each once per entry, in the
/// order the leaves hold them.
pub proof fn law_lookup_wf(pages: Map<u64, Seq<u8>>, root: u64, key: KeyView)
    requires
        tree_wf(pages, root),
    ensures
        lookup_spec(pages, root, key) == Some(rows_with_key(tree_entries(pages, root), key)),
{
    let ls = tree_leaves(pages, root, MAX_DEPTH as nat)->0;
    let p = lemma_descend_wf(pages, root, key, MAX_DEPTH as nat);
    lemma_leaves_are_leaves(pages, root, MAX_DEPTH as nat);
    lemma_entries_of_split(pages, ls, p);
    let all = entries_of(pages, ls);
    let before = entries_of(pages, ls.subrange(0, p));
    let from = entries_of(pages, ls.subrange(p, ls.len() as int));
    assert(keys_in_order(from)) by {
        assert forall|i: int, j: int| 0 <= i < j < from.len() implies !key_lt((#[trigger] from[j]).key, (#[trigger] from[i]).key) by {
            assert(all[before.len() + i] == from[i]);
            assert(all[before.len() + j] == from[j]);
        }
    }
    lemma_scan_chain_wf(pages, ls, p, key, u64::MAX as nat);
    lemma_rows_with_key_concat(before, from, key);
    lemma_rows_no_key(before, key);
    assert(rows_with_key(all, key) =~= rows_with_key(from, key));
}

/// No key is below itself.
proof fn lemma_key_irrefl(k: KeyView)
    ensures
        !key_lt(k, k),
{
    if let KeyView::Text(s) = k {
        lemma_bytes_irrefl(encode_utf8(s));
    }
}

proof fn lemma_bytes_irrefl(a: Seq<u8>)
    ensures
        !bytes_lt(a, a),
    decreases a.len(),
{
    if a.len() > 0 {
        assert(a.drop_first() == a.drop_first());
        lemma_bytes_irrefl(a.drop_first());
    }
}

/// Where a scan for `key` stops in `es` from `i` on: entries before it are at
/// most `key`, the one there is above it.
proof fn lemma_stop_pos_range(es: Seq<EntryView>, key: KeyView, i: int)
    requires
        0 <= i <= es.len(),
    ensures
        i <= stop_pos_from(es, key, i) <= es.len(),
        stop_pos_from(es, key, i) < es.len() ==> key_lt(key, es[stop_pos_from(es, key, i)].key),
    decreases es.len() - i,
{
    if i < es.len() && !key_lt(key, es[i].key) {
        lemma_stop_pos_range(es, key, i + 1);
    }
}

/// Every page in the leaves of a subtree holds a leaf.
proof fn lemma_leaves_are_leaves(pages: Map<u64, Seq<u8>>, id: u64, d: nat)
    requires
        tree_leaves(pages, id, d) is Some,
    ensures
        forall|q: int| 0 <= q < tree_leaves(pages, id, d)->0.len() ==> pages.contains_key(#[trigger] tree_leaves(pages, id, d)->0[q])
            && page_node(pages[tree_leaves(pages, id, d)->0[q]]) is Some
            && page_node(pages[tree_leaves(pages, id, d)->0[q]])->0 is Leaf,
    decreases d, 0int,
{
    match page_node(pages[id]) {
        Some(NodeView::Internal { keys, children }) => {
            lemma_kids_are_leaves(pages, keys, children, 0, (d - 1) as nat);
        },
        _ => {},
    }
}

proof fn lemma_kids_are_leaves(pages: Map<u64, Seq<u8>>, keys: Seq<KeyView>, children: Seq<u64>, i: int, d: nat)
    requires
        kids_leaves(pages, keys, children, i, d) is Some,
    ensures
        forall|q: int| 0 <= q < kids_leaves(pages, keys, children, i, d)->0.len()
            ==> pages.contains_key(#[trigger] kids_leaves(pages, keys, children, i, d)->0[q])
            && page_node(pages[kids_leaves(pages, keys, children, i, d)->0[q]]) is Some
            && page_node(pages[kids_leaves(pages, keys, children, i, d)->0[q]])->0 is Leaf,
    decreases d, children.len() - i + 1,
{
    if 0 <= i < children.len() {
        lemma_leaves_are_leaves(pages, children[i], d);
        lemma_kids_are_leaves(pages, keys, children, i + 1, d);
        let l = tree_leaves(pages, children[i], d)->0;
        let rest = kids_leaves(pages, keys, children, i + 1, d)->0;
        let all = kids_leaves(pages, keys, children, i, d)->0;
        assert(all == l + rest);
        assert forall|q: int| 0 <= q < all.len() implies pages.contains_key(#[trigger] all[q])
            && page_node(pages[all[q]]) is Some && page_node(pages[all[q]])->0 is Leaf by {
            if q < l.len() {
                assert(all[q] == l[q]);
            } else {
                assert(all[q] == rest[q - l.len()]);
            }
        }
    }
}

/// Law (fresh index): a root page holding an empty leaf that ends the chain,
/// as `initialize_root` leaves it, is a well-formed tree with no entries, so
/// every lookup on it answers no rows.
pub proof fn law_empty_root_wf(pages: Map<u64, Seq<u8>>, root: u64, key: KeyView)
    requires
        pages.contains_key(root),
        page_node(pages[root]) == Some(NodeView::Leaf { next_leaf: None, entries: Seq::empty() }),
    ensures
        tree_wf(pages, root),
        tree_entries(pages, root) == Seq::<EntryView>::empty(),
        lookup_spec(pages, root, key) == Some(Seq::<RowId>::empty()),
{
    let ls = seq![root];
    assert(tree_leaves(pages, root, MAX_DEPTH as nat) == Some(ls));
    assert(ls.drop_first() =~= Seq::<u64>::empty());
    assert(entries_of(pages, ls.drop_first()) == Seq::<EntryView>::empty());
    assert(leaf_entries(pages, ls[0]) == Seq::<EntryView>::empty());
    assert(entries_of(pages, ls) =~= Seq::<EntryView>::empty());
    law_lookup_wf(pages, root, key);
    assert(rows_with_key(Seq::<EntryView>::empty(), key) =~= Seq::<RowId>::empty());
}
proof fn lemma_bytes_lt_trans(a: Seq<u8>, b: Seq<u8>, c: Seq<u8>)
    requires
        bytes_lt(a, b),
        bytes_lt(b, c),
    ensures
        bytes_lt(a, c),
    decreases a.len(),
{
    if a.len() > 0 && a[0] == b[0] && b[0] == c[0] {
        lemma_bytes_lt_trans(a.drop_first(), b.drop_first(), c.drop_first());
    }
}

proof fn lemma_key_lt_trans(a: KeyView, b: KeyView, c: KeyView)
    requires
        key_lt(a, b),
        key_lt(b, c),
    ensures
        key_lt(a, c),
{
    if let (KeyView::Text(x), KeyView::Text(y), KeyView::Text(z)) = (a, b, c) {
        lemma_bytes_lt_trans(encode_utf8(x), encode_utf8(y), encode_utf8(z));
    }
}

/// Where a leaf insert puts `e`: after the entries below it, before the rest.
proof fn lemma_insert_pos_from(es: Seq<EntryView>, e: EntryView, i: int)
    requires
        0 <= i <= es.len(),
    ensures
        i <= insert_pos_from(es, e, i) <= es.len(),
        forall|j: int| i <= j < insert_pos_from(es, e, i) ==> #[trigger] entry_lt(es[j], e),
        insert_pos_from(es, e, i) < es.len() ==> !entry_lt(es[insert_pos_from(es, e, i)], e),
    decreases es.len() - i,
{
    if i < es.len() && entry_lt(es[i], e) {
        lemma_insert_pos_from(es, e, i + 1);
    }
}

/// Putting `e` where a leaf insert puts it keeps keys in order.
proof fn lemma_leaf_insert_in_order(es: Seq<EntryView>, e: EntryView)
    requires
        keys_in_order(es),
    ensures
        keys_in_order(leaf_insert(es, e)),
{
    lemma_insert_pos_from(es, e, 0);
    let p = insert_pos_from(es, e, 0);
    let s = leaf_insert(es, e);
    assert forall|i: int, j: int| 0 <= i < j < s.len() implies !key_lt((#[trigger] s[j]).key, (#[trigger] s[i]).key) by {
        if j < p {
            assert(s[i] == es[i] && s[j] == es[j]);
        } else if j == p {
            assert(s[j] == e && s[i] == es[i]);
            assert(entry_lt(es[i], e));
            lemma_key_total(es[i].key, e.key);
        } else if i > p {
            assert(s[i] == es[i - 1] && s[j] == es[j - 1]);
        } else if i == p {
            assert(s[i] == e && s[j] == es[j - 1]);
            lemma_key_total(es[p].key, e.key);
            if j - 1 > p && key_lt(es[j - 1].key, e.key) {
                assert(!key_lt(es[j - 1].key, es[p].key));
                lemma_key_total(es[j - 1].key, es[p].key);
                if es[j - 1].key != es[p].key {
                    lemma_key_lt_trans(es[p].key, es[j - 1].key, e.key);
                }
            }
        } else {
            assert(s[i] == es[i] && s[j] == es[j - 1]);
        }
    }
}

/// Law (insert into a one-leaf tree): a well-formed tree whose root is a
/// leaf, taking entry `e` without overflowing, stays a well-formed tree at
/// the same root whose entries are the old ones with `e` put in order.
pub proof fn law_leaf_root_insert(o: Map<u64, Seq<u8>>, mid: Map<u64, Seq<u8>>, n: Map<u64, Seq<u8>>, root: u64, e: EntryView,
    t: InsertTrace, new_root: u64)
    requires
        tree_wf(o, root),
        o.contains_key(root),
        page_node(o[root]) matches Some(NodeView::Leaf { .. }),
        insert_outcome(o, mid, root, e, None, MAX_DEPTH as nat, t),
        root_outcome(mid, n, root, None, new_root),
    ensures
        new_root == root,
        tree_wf(n, root),
        tree_entries(n, root) == leaf_insert(tree_entries(o, root), e),
{
    let es = leaf_entries(o, root);
    let ls = seq![root];
    assert(tree_leaves(o, root, MAX_DEPTH as nat) == Some(ls));
    assert(ls.drop_first() =~= Seq::<u64>::empty());
    assert(entries_of(o, ls.drop_first()) == Seq::<EntryView>::empty());
    assert(entries_of(o, ls) =~= es);
    let all = leaf_insert(es, e);
    assert(next_of(o, ls[0]) is None);
    assert(page_node(n[root]) == Some(NodeView::Leaf { next_leaf: None, entries: all }));
    assert(tree_leaves(n, root, MAX_DEPTH as nat) == Some(ls));
    assert(entries_of(n, ls.drop_first()) == Seq::<EntryView>::empty());
    assert(entries_of(n, ls) =~= all);
    lemma_leaf_insert_in_order(es, e);
}
/// Law (a one-leaf tree splits): a well-formed tree whose root is a leaf,
/// overflowing as it takes entry `e`, becomes a well-formed two-leaf tree
/// under the new root, whose entries are the old ones with `e` put in order,
/// when the new root's page is not the new leaf's page.
pub proof fn law_leaf_root_split(o: Map<u64, Seq<u8>>, mid: Map<u64, Seq<u8>>, n: Map<u64, Seq<u8>>, root: u64, e: EntryView,
    sep: KeyView, right: u64, t: InsertTrace, new_root: u64)
    requires
        tree_wf(o, root),
        o.contains_key(root),
        page_node(o[root]) matches Some(NodeView::Leaf { .. }),
        insert_outcome(o, mid, root, e, Some((sep, right)), MAX_DEPTH as nat, t),
        root_outcome(mid, n, root, Some((sep, right)), new_root),
        new_root != right,
    ensures
        new_root != root,
        tree_wf(n, new_root),
        tree_entries(n, new_root) == leaf_insert(tree_entries(o, root), e),
{
    let es = leaf_entries(o, root);
    let ls0 = seq![root];
    assert(tree_leaves(o, root, MAX_DEPTH as nat) == Some(ls0));
    assert(ls0.drop_first() =~= Seq::<u64>::empty());
    assert(entries_of(o, ls0.drop_first()) == Seq::<EntryView>::empty());
    assert(entries_of(o, ls0) =~= es);
    assert(next_of(o, ls0[0]) is None);
    let all = leaf_insert(es, e);
    lemma_leaf_insert_in_order(es, e);
    let h = (all.len() / 2) as int;
    let lo = all.subrange(0, h);
    let hi = all.subrange(h, all.len() as int);
    assert(page_node(n[root]) == Some(NodeView::Leaf { next_leaf: Some(right), entries: lo }));
    assert(page_node(n[right]) == Some(NodeView::Leaf { next_leaf: None, entries: hi }));
    let keys = seq![sep];
    let children = seq![root, right];
    assert(page_node(n[new_root]) == Some(NodeView::Internal { keys, children }));
    let d = (MAX_DEPTH - 1) as nat;
    assert(tree_leaves(n, root, d) == Some(seq![root]));
    assert(tree_leaves(n, right, d) == Some(seq![right]));
    let r1 = seq![right];
    assert(r1.drop_first() =~= Seq::<u64>::empty());
    assert(entries_of(n, r1.drop_first()) == Seq::<EntryView>::empty());
    assert(entries_of(n, r1) =~= hi);
    let l1 = seq![root];
    assert(l1.drop_first() =~= Seq::<u64>::empty());
    assert(entries_of(n, l1.drop_first()) == Seq::<EntryView>::empty());
    assert(entries_of(n, l1) =~= lo);
    assert(kids_leaves(n, keys, children, 2, d) == Some(Seq::<u64>::empty()));
    assert(kids_leaves(n, keys, children, 1, d) == Some(r1 + Seq::<u64>::empty()));
    assert(r1 + Seq::<u64>::empty() =~= r1);
    assert(!exists|m: int| 0 <= m < entries_of(n, l1).len() && key_lt(keys[0], #[trigger] entries_of(n, l1)[m].key)) by {
        assert forall|m: int| 0 <= m < entries_of(n, l1).len() implies !key_lt(keys[0], #[trigger] entries_of(n, l1)[m].key) by {
            assert(entries_of(n, l1)[m] == all[m]);
            assert(!key_lt(all[h].key, all[m].key));
        }
    }
    let ls = l1 + r1;
    assert(kids_leaves(n, keys, children, 0, d) == Some(ls));
    assert(tree_leaves(n, new_root, MAX_DEPTH as nat) == Some(ls));
    assert(ls =~= seq![root, right]);
    lemma_entries_of_concat(n, l1, r1);
    assert(lo + hi =~= all);
    assert(entries_of(n, ls) == all);
    assert(next_of(n, ls[0]) == Some(ls[1]));
    assert(next_of(n, ls[1]) is None);
}
} // verus!
