//! SQL execution over a transactional store: the row format, value
//! comparison and coercion, column resolution, row selection, and the
//! statements themselves. A SELECT checks its predicate on every candidate row,
//! whether the candidates came from an index or from a full scan.
//!
//! Row layout:
//!
//! ```text
//! magic "RDBR" | version u16 | value count u16 | (tag u8, payload)...
//! tag 0 NULL | 1 INTEGER i64 | 2 TEXT u32 length + UTF-8 | 3 DOUBLE f64 bits
//! ```

use vstd::prelude::*;
use vstd::utf8::{valid_utf8, decode_utf8, encode_utf8, encode_utf8_valid_utf8,
    encode_utf8_decode_utf8};
use crate::bytes::{le16_bytes, le32_bytes, le64_bytes, lemma_le16_bytes, lemma_le32_bytes,
    lemma_le64_bytes, push_u16, push_u32, push_u64};
use crate::codec::{p_u8, p_u16, p_u32, p_u64, p_bytes, DecodeCursor, push_bytes, lemma_sub_split,
    lemma_p_u8_at, lemma_p_u16_at, lemma_p_u32_at, lemma_p_u64_at};
use crate::listcodec::{e_list, pr_list, prepend, lemma_e_list_push, lemma_prepend_step,
    lemma_pr_list_at};
use crate::types::{DbError, DbResult, Value, ColumnInfo, ExecResult, RelationId, user_error, corruption};
use crate::tx::{TransactionalStore, Transaction, TransactionState, TxStoreView, scan_outcome, file_pages, autocommit_row_ok};
use crate::catalog::{has_id, first_with_id, scan_rows, storage_heap_pages, heap_rows_view};
use crate::wal::{lemma_encode_layout, WalRecordView, WalKindView};
use crate::vfs::spec_page_offset;
use crate::page::PAGE_SIZE;
use crate::types::PageId;
use crate::vfs::VfsFile;
use crate::catalog::{ColumnDef, ColumnView, RelationInfo, RelationView, HeapRow, RelationKind, StorageView, CatalogView,
    columns_view, has_name, first_with_name, is_index_on, is_index_on_column, with_new_table, valid_name, columns_valid};
use crate::sqlparse::{Token, Statement, Selection, StatementView, tokens_view, parse_spec, parse_statement};
use crate::extension::{installed_ok, lower_str, scalar_result, ScalarImpl, builtin_extension_descriptor,
    registry_from_installed_extensions, stdlib_function, is_stdlib_function, reads_args, ScalarArity};
use crate::ext_abi::RDBMS_EXT_ABI_VERSION;
use crate::catalog::{with_extension, ExtensionInfo, ExtensionView, extensions_view, stored_record, has_extension, catalog_fits_page};
use crate::tx::{extension_registered_as, entry_filed, page_map_rows};
use crate::index::leaf_page;
use crate::catalog::CATALOG_PAGE;
use crate::types::RowId;
use crate::index::{IndexKey, KeyView, EntryView, row_held, lookup_spec, tree_wf, tree_entries, law_lookup_wf, lemma_rows_with_key_has};
use crate::tx::index_root;
use crate::binary64::{double_of_int, double_eq, int_to_double_bits, double_bits_eq};
use crate::sqlparse::{ProjectionView, names_view};

verus! {

/// "RDBR" read as a little-endian `u32`.
pub const SQL_ROW_MAGIC: u32 = 0x5242_4452;
pub const SQL_ROW_VERSION: u16 = 1;
pub const TAG_NULL: u8 = 0;
pub const TAG_INTEGER: u8 = 1;
pub const TAG_TEXT: u8 = 2;
pub const TAG_DOUBLE: u8 = 3;

pub enum ValueView {
    Null,
    Text(Seq<char>),
    Integer(i64),
    Double(u64),
}

impl View for Value {
    type V = ValueView;

    open spec fn view(&self) -> ValueView {
        match self {
            Value::Null => ValueView::Null,
            Value::Text(s) => ValueView::Text(s@),
            Value::Integer(v) => ValueView::Integer(*v),
            Value::Double(bits) => ValueView::Double(*bits),
        }
    }
}

pub open spec fn values_view(v: Seq<Value>) -> Seq<ValueView> {
    v.map_values(|x: Value| x@)
}

pub open spec fn e_value(v: ValueView) -> Seq<u8> {
    match v {
        ValueView::Null => seq![TAG_NULL],
        ValueView::Integer(x) => seq![TAG_INTEGER] + le64_bytes(x as u64),
        ValueView::Text(s) => seq![TAG_TEXT] + le32_bytes(encode_utf8(s).len() as u32) + encode_utf8(s),
        ValueView::Double(bits) => seq![TAG_DOUBLE] + le64_bytes(bits),
    }
}

pub open spec fn enc_value() -> spec_fn(ValueView) -> Seq<u8> {
    |v: ValueView| e_value(v)
}

/// The row record of a list of values.
pub open spec fn e_row(vs: Seq<ValueView>) -> Seq<u8> {
    le32_bytes(SQL_ROW_MAGIC) + le16_bytes(SQL_ROW_VERSION) + le16_bytes(vs.len() as u16)
        + e_list(vs, enc_value())
}

pub open spec fn value_encodable(v: ValueView) -> bool {
    match v {
        ValueView::Text(s) => encode_utf8(s).len() <= u32::MAX,
        _ => true,
    }
}

/// The row has at most `u16::MAX` values and every text fits its `u32` length.
pub open spec fn row_encodable(vs: Seq<ValueView>) -> bool {
    vs.len() <= u16::MAX && forall|i: int| 0 <= i < vs.len() ==> #[trigger] value_encodable(vs[i])
}

pub open spec fn pr_value(b: Seq<u8>, pos: int) -> Option<(ValueView, int)> {
    match p_u8(b, pos) {
        None => None,
        Some((tag, p)) => if tag == TAG_NULL {
            Some((ValueView::Null, p))
        } else if tag == TAG_INTEGER {
            match p_u64(b, p) {
                None => None,
                Some((x, q)) => Some((ValueView::Integer(x as i64), q)),
            }
        } else if tag == TAG_TEXT {
            match p_u32(b, p) {
                None => None,
                Some((n, q)) => match p_bytes(b, q, n as int) {
                    None => None,
                    Some((s, r)) => if valid_utf8(s) {
                        Some((ValueView::Text(decode_utf8(s)), r))
                    } else {
                        None
                    },
                },
            }
        } else if tag == TAG_DOUBLE {
            match p_u64(b, p) {
                None => None,
                Some((bits, q)) => Some((ValueView::Double(bits), q)),
            }
        } else {
            None
        },
    }
}

pub open spec fn pf_value() -> spec_fn(Seq<u8>, int) -> Option<(ValueView, int)> {
    |b: Seq<u8>, pos: int| pr_value(b, pos)
}

/// The values of `n` encoded values at `pos` that end the record.
pub open spec fn pr_row_tail(b: Seq<u8>, pos: int, n: nat) -> Option<Seq<ValueView>> {
    match pr_list(b, pos, n, pf_value()) {
        None => None,
        Some((vs, p)) => if p == b.len() {
            Some(vs)
        } else {
            None
        },
    }
}

/// The values that `decode_row` produces from `b`, if any.
pub open spec fn pr_row(b: Seq<u8>) -> Option<Seq<ValueView>> {
    match p_u32(b, 0) {
        None => None,
        Some((magic, p1)) => if magic != SQL_ROW_MAGIC {
            None
        } else {
            match p_u16(b, p1) {
                None => None,
                Some((version, p2)) => if version != SQL_ROW_VERSION {
                    None
                } else {
                    match p_u16(b, p2) {
                        None => None,
                        Some((n, p3)) => pr_row_tail(b, p3, n as nat),
                    }
                },
            }
        },
    }
}

fn write_value(out: &mut Vec<u8>, value: &Value) -> (r: DbResult<()>)
    ensures
        r is Ok <==> value_encodable(value@),
        r is Ok ==> final(out)@ == old(out)@ + e_value(value@),
        r is Err ==> r->Err_0 is User,
{
    match value {
        Value::Null => {
            out.push(TAG_NULL);
        },
        Value::Integer(x) => {
            out.push(TAG_INTEGER);
            push_u64(out, *x as u64);
        },
        Value::Text(s) => {
            let bytes = s.as_str().as_bytes();
            if bytes.len() > 0xFFFF_FFFF {
                return Err(user_error("SQL text literal length does not fit into u32"));
            }
            out.push(TAG_TEXT);
            push_u32(out, bytes.len() as u32);
            push_bytes(out, bytes);
        },
        Value::Double(bits) => {
            out.push(TAG_DOUBLE);
            push_u64(out, *bits);
        },
    }
    assert(final(out)@ =~= old(out)@ + e_value(value@));
    Ok(())
}

/// Encode SQL values into heap row bytes.
pub fn encode_row(values: &[Value]) -> (r: DbResult<Vec<u8>>)
    ensures
        r is Ok <==> row_encodable(values_view(values@)),
        r matches Ok(v) ==> v@ == e_row(values_view(values@)),
        r is Err ==> r->Err_0 is User,
{
    let ghost vs = values_view(values@);
    let mut out: Vec<u8> = Vec::new();
    push_u32(&mut out, SQL_ROW_MAGIC);
    push_u16(&mut out, SQL_ROW_VERSION);
    if values.len() > 0xFFFF {
        return Err(user_error("SQL row value count does not fit into u16"));
    }
    push_u16(&mut out, values.len() as u16);
    let ghost start = out@;
    let mut i: usize = 0;
    while i < values.len()
        invariant
            i <= values@.len(),
            values@.len() <= u16::MAX,
            vs == values_view(values@),
            out@ == start + e_list(vs.subrange(0, i as int), enc_value()),
            forall|j: int| 0 <= j < i ==> #[trigger] value_encodable(vs[j]),
        decreases values@.len() - i,
    {
        let w = write_value(&mut out, &values[i]);
        if w.is_err() {
            assert(!value_encodable(vs[i as int]));
            return Err(user_error("SQL text literal length does not fit into u32"));
        }
        proof {
            lemma_e_list_push(vs.subrange(0, i as int), vs[i as int], enc_value());
            assert(vs.subrange(0, i as int).push(vs[i as int]) =~= vs.subrange(0, i + 1));
        }
        i = i + 1;
    }
    assert(vs.subrange(0, vs.len() as int) =~= vs);
    assert(out@ =~= e_row(vs));
    Ok(out)
}

fn read_value(cur: &mut DecodeCursor) -> (r: DbResult<Value>)
    requires
        old(cur).wf(),
    ensures
        final(cur).wf(),
        final(cur).bytes@ == old(cur).bytes@,
        match pr_value(old(cur).bytes@, old(cur).offset as int) {
            Some((v, p)) => r matches Ok(x) && x@ == v && final(cur).offset == p,
            None => r is Err && r->Err_0 is Corruption,
        },
{
    let tag = cur.read_u8()?;
    if tag == TAG_NULL {
        Ok(Value::Null)
    } else if tag == TAG_INTEGER {
        let x = cur.read_u64()?;
        Ok(Value::Integer(x as i64))
    } else if tag == TAG_TEXT {
        let len = cur.read_u32()?;
        let bytes = cur.read_bytes(len as usize)?;
        match crate::codec::string_from_utf8(bytes) {
            Some(text) => Ok(Value::Text(text)),
            None => Err(corruption("SQL text value is not valid UTF-8")),
        }
    } else if tag == TAG_DOUBLE {
        let bits = cur.read_u64()?;
        Ok(Value::Double(bits))
    } else {
        Err(corruption("unknown SQL row value tag"))
    }
}

/// Decode SQL row bytes from a heap table.
pub fn decode_row(bytes: &[u8]) -> (r: DbResult<Vec<Value>>)
    ensures
        match pr_row(bytes@) {
            Some(vs) => r matches Ok(v) && values_view(v@) == vs,
            None => r is Err && r->Err_0 is Corruption,
        },
{
    let mut cursor = DecodeCursor::new(bytes);
    let magic = cursor.read_u32()?;
    if magic != SQL_ROW_MAGIC {
        return Err(corruption("invalid SQL row magic"));
    }
    let version = cursor.read_u16()?;
    if version != SQL_ROW_VERSION {
        return Err(corruption("unsupported SQL row version"));
    }
    let n = cursor.read_u16()?;
    let ghost b = cursor.bytes@;
    let ghost o = cursor.offset as int;
    assert(pr_row(b) == pr_row_tail(b, o, n as nat));
    let mut values: Vec<Value> = Vec::new();
    let mut i: u16 = 0;
    while i < n
        invariant
            cursor.wf(),
            cursor.bytes@ == b,
            b == bytes@,
            pr_row(b) == pr_row_tail(b, o, n as nat),
            i <= n,
            pr_list(b, o, n as nat, pf_value()) == prepend(
                values_view(values@),
                pr_list(b, cursor.offset as int, (n - i) as nat, pf_value()),
            ),
        decreases n - i,
    {
        let ghost before = cursor.offset as int;
        let ghost pre = values_view(values@);
        let v = read_value(&mut cursor)?;
        proof {
            lemma_prepend_step(pre, b, before, (n - i) as nat, pf_value(), v@, cursor.offset as int);
        }
        values.push(v);
        assert(values_view(values@) =~= pre.push(v@));
        i = i + 1;
    }
    assert(values_view(values@) + Seq::<ValueView>::empty() =~= values_view(values@));
    cursor.finish()?;
    Ok(values)
}

proof fn lemma_pr_value_at(b: Seq<u8>, p: int, v: ValueView)
    requires
        value_encodable(v),
        0 <= p,
        p + e_value(v).len() <= b.len(),
        b.subrange(p, p + e_value(v).len()) == e_value(v),
    ensures
        pr_value(b, p) == Some((v, p + e_value(v).len())),
{
    match v {
        ValueView::Null => {
            lemma_p_u8_at(b, p, TAG_NULL);
        },
        ValueView::Integer(x) => {
            lemma_le64_bytes(x as u64);
            lemma_sub_split(b, p, seq![TAG_INTEGER], le64_bytes(x as u64));
            lemma_p_u8_at(b, p, TAG_INTEGER);
            lemma_p_u64_at(b, p + 1, x as u64);
            assert((x as u64) as i64 == x) by (bit_vector);
        },
        ValueView::Text(s) => {
            let u = encode_utf8(s);
            lemma_le32_bytes(u.len() as u32);
            let h = seq![TAG_TEXT] + le32_bytes(u.len() as u32);
            lemma_sub_split(b, p, h, u);
            lemma_sub_split(b, p, seq![TAG_TEXT], le32_bytes(u.len() as u32));
            lemma_p_u8_at(b, p, TAG_TEXT);
            lemma_p_u32_at(b, p + 1, u.len() as u32);
            encode_utf8_valid_utf8(s);
            encode_utf8_decode_utf8(s);
        },
        ValueView::Double(bits) => {
            lemma_le64_bytes(bits);
            lemma_sub_split(b, p, seq![TAG_DOUBLE], le64_bytes(bits));
            lemma_p_u8_at(b, p, TAG_DOUBLE);
            lemma_p_u64_at(b, p + 1, bits);
        },
    }
}

/// Decoding an encoded row gives the same values back.
pub proof fn lemma_row_roundtrip(vs: Seq<ValueView>)
    requires
        row_encodable(vs),
    ensures
        pr_row(e_row(vs)) == Some(vs),
{
    let b = e_row(vs);
    let a1 = le32_bytes(SQL_ROW_MAGIC);
    let a2 = a1 + le16_bytes(SQL_ROW_VERSION);
    let a3 = a2 + le16_bytes(vs.len() as u16);
    lemma_le32_bytes(SQL_ROW_MAGIC);
    lemma_le16_bytes(SQL_ROW_VERSION);
    lemma_le16_bytes(vs.len() as u16);
    assert(b.subrange(0, b.len() as int) =~= b);
    lemma_sub_split(b, 0, a3, e_list(vs, enc_value()));
    lemma_sub_split(b, 0, a2, le16_bytes(vs.len() as u16));
    lemma_sub_split(b, 0, a1, le16_bytes(SQL_ROW_VERSION));
    lemma_p_u32_at(b, 0, SQL_ROW_MAGIC);
    lemma_p_u16_at(b, 4, SQL_ROW_VERSION);
    lemma_p_u16_at(b, 6, vs.len() as u16);
    assert forall|i: int, q: int|
        #![trigger vs[i], pf_value()(b, q)]
        0 <= i < vs.len() && 0 <= q && q + enc_value()(vs[i]).len() <= b.len()
            && b.subrange(q, q + enc_value()(vs[i]).len()) == enc_value()(vs[i])
            implies pf_value()(b, q) == Some((vs[i], q + enc_value()(vs[i]).len())) by {
        assert(value_encodable(vs[i]));
        lemma_pr_value_at(b, q, vs[i]);
    }
    lemma_pr_list_at(b, 8, vs, pf_value(), enc_value());
}

// ---------------------------------------------------------------------------
// Projections and the session handle.

/// Projection used by a parsed SELECT statement.
#[derive(Clone, Debug, PartialEq, Eq)]
pub enum Projection {
    /// `*` projection.
    All,
    /// Explicit column list.
    Columns(Vec<String>),
}

/// Owned SQL session over a transaction store.
pub struct SqlSession<F: VfsFile> {
    store: TransactionalStore<F>,
}

impl<F: VfsFile> SqlSession<F> {
    /// The store the session runs statements against.
    pub closed spec fn spec_store(&self) -> TransactionalStore<F> {
        self.store
    }

    /// Create a SQL session from an opened transaction store.
    pub fn new(store: TransactionalStore<F>) -> (s: Self)
        ensures
            s.spec_store() == store,
    {
        SqlSession { store }
    }

    /// Borrow the underlying transaction store.
    pub fn store(&self) -> (r: &TransactionalStore<F>)
        ensures
            *r == self.spec_store(),
    {
        &self.store
    }

    /// Mutably borrow the underlying transaction store.
    pub fn store_mut(&mut self) -> (r: &mut TransactionalStore<F>)
        ensures
            *r == old(self).spec_store(),
            final(self).spec_store() == *final(r),
    {
        &mut self.store
    }

    /// Execute one SQL statement, given as its tokens and the doubles of its
    /// decimal literals, against the session's store.
    pub fn execute(&mut self, tokens: &[Token], doubles: &[Option<u64>], params: &[Value]) -> (r: DbResult<ExecResult>)
        ensures
            params@.len() > 0 ==> (r matches Err(e) && e is User && final(self).spec_store()@ == old(self).spec_store()@),
            params@.len() == 0 && parse_spec(tokens_view(tokens@), doubles@) is None
                ==> (r matches Err(e) && e is User && final(self).spec_store()@ == old(self).spec_store()@),
            params@.len() == 0 ==> (parse_spec(tokens_view(tokens@), doubles@) matches Some(st)
                ==> statement_outcome(old(self).spec_store()@, final(self).spec_store()@, old(self).spec_store().data_file(), st, r)),
            params@.len() == 0 && old(self).spec_store().ready() ==> (parse_spec(tokens_view(tokens@), doubles@) matches Some(st)
                ==> (statement_ok(old(self).spec_store()@.catalog, old(self).spec_store().data_file().contents(), st)
                ==> r is Ok && statement_stored(old(self).spec_store()@.catalog, final(self).spec_store()@.catalog, final(self).spec_store().data_file().contents(), st))),
            r is Ok && old(self).spec_store().data_file().modeled()
                && index_ready(old(self).spec_store()@.catalog, old(self).spec_store().data_file().contents())
                ==> (parse_spec(tokens_view(tokens@), doubles@) matches Some(st)
                ==> statement_indexed(old(self).spec_store()@.catalog, old(self).spec_store().data_file().contents(),
                    final(self).spec_store()@.catalog, st)),
    {
        execute(&mut self.store, tokens, doubles, params)
    }

    /// Consume the session and return the underlying transaction store.
    pub fn into_store(self) -> (r: TransactionalStore<F>)
        ensures
            r == self.spec_store(),
    {
        self.store
    }
}

// ---------------------------------------------------------------------------
// Value semantics of the SQL layer.

/// `=` between two SQL values; an integer meets a double as the double
/// nearest to it.
pub open spec fn sql_equal(l: ValueView, r: ValueView) -> bool {
    match (l, r) {
        (ValueView::Null, ValueView::Null) => true,
        (ValueView::Integer(a), ValueView::Integer(b)) => a == b,
        (ValueView::Text(a), ValueView::Text(b)) => a == b,
        (ValueView::Double(a), ValueView::Double(b)) => double_eq(a, b),
        (ValueView::Double(a), ValueView::Integer(b)) => double_eq(a, double_of_int(b as int) as u64),
        (ValueView::Integer(a), ValueView::Double(b)) => double_eq(double_of_int(a as int) as u64, b),
        _ => false,
    }
}

fn sql_values_equal(left: &Value, right: &Value) -> (r: bool)
    ensures
        r == sql_equal(left@, right@),
{
    match (left, right) {
        (Value::Null, Value::Null) => true,
        (Value::Integer(a), Value::Integer(b)) => *a == *b,
        (Value::Text(a), Value::Text(b)) => *a == *b,
        (Value::Double(a), Value::Double(b)) => double_bits_eq(*a, *b),
        (Value::Double(a), Value::Integer(b)) => double_bits_eq(*a, int_to_double_bits(*b)),
        (Value::Integer(a), Value::Double(b)) => double_bits_eq(int_to_double_bits(*a), *b),
        _ => false,
    }
}

/// An independent copy of a value.
pub fn copy_value(v: &Value) -> (r: Value)
    ensures
        r@ == v@,
{
    match v {
        Value::Null => Value::Null,
        Value::Text(s) => Value::Text(s.clone()),
        Value::Integer(x) => Value::Integer(*x),
        Value::Double(b) => Value::Double(*b),
    }
}

/// Integer column type names.
pub open spec fn is_integer_type(t: Seq<char>) -> bool {
    t == "INT"@ || t == "INTEGER"@
}

/// Double column type names.
pub open spec fn is_double_type(t: Seq<char>) -> bool {
    t == "DOUBLE"@ || t == "REAL"@ || t == "FLOAT"@
}

/// A value stored into a column of type `t`: NULL fits every column, an
/// integer column takes integers, a text column text, and a double column
/// doubles and integers, the latter as the nearest double.
pub open spec fn coerce_spec(t: Seq<char>, v: ValueView) -> Option<ValueView> {
    if v is Null {
        Some(ValueView::Null)
    } else if is_integer_type(t) {
        if v is Integer { Some(v) } else { None }
    } else if t == "TEXT"@ {
        if v is Text { Some(v) } else { None }
    } else if is_double_type(t) {
        match v {
            ValueView::Double(_) => Some(v),
            ValueView::Integer(x) => Some(ValueView::Double(double_of_int(x as int) as u64)),
            _ => None,
        }
    } else {
        None
    }
}

/// Every value of the row fits its column.
pub open spec fn row_coercible(cols: Seq<ColumnView>, vs: Seq<ValueView>) -> bool {
    cols.len() == vs.len() && forall|i: int| 0 <= i < vs.len() ==> (#[trigger] coerce_spec(cols[i].sql_type, vs[i])) is Some
}

/// The row with each value coerced to its column's type.
pub open spec fn coerced_row(cols: Seq<ColumnView>, vs: Seq<ValueView>) -> Seq<ValueView> {
    Seq::new(vs.len(), |i: int| coerce_spec(cols[i].sql_type, vs[i])->Some_0)
}

/// `=` between SQL values does not depend on the order of its operands.
pub proof fn lemma_sql_equal_symmetric(a: ValueView, b: ValueView)
    ensures
        sql_equal(a, b) == sql_equal(b, a),
{
}

/// A value that was coerced to a column type is left as it is by a second
/// coercion to the same type.
pub proof fn lemma_coerce_idempotent(t: Seq<char>, v: ValueView)
    ensures
        coerce_spec(t, v) matches Some(w) ==> coerce_spec(t, w) == Some(w),
{
}

fn coerce_value(column: &ColumnDef, value: &Value) -> (r: DbResult<Value>)
    ensures
        match coerce_spec(column@.sql_type, value@) {
            Some(v) => r matches Ok(x) && x@ == v,
            None => r matches Err(e) && e is User,
        },
{
    if matches!(value, Value::Null) {
        return Ok(Value::Null);
    }
    let t = column.sql_type.as_str();
    if crate::codec::str_eq(t, "INT") || crate::codec::str_eq(t, "INTEGER") {
        match value {
            Value::Integer(x) => Ok(Value::Integer(*x)),
            _ => Err(user_error("column expects integer")),
        }
    } else if crate::codec::str_eq(t, "TEXT") {
        match value {
            Value::Text(s) => Ok(Value::Text(s.clone())),
            _ => Err(user_error("column expects text")),
        }
    } else if crate::codec::str_eq(t, "DOUBLE") || crate::codec::str_eq(t, "REAL") || crate::codec::str_eq(t, "FLOAT") {
        match value {
            Value::Double(b) => Ok(Value::Double(*b)),
            Value::Integer(x) => Ok(Value::Double(int_to_double_bits(*x))),
            _ => Err(user_error("column expects double")),
        }
    } else {
        Err(user_error("unsupported SQL column type"))
    }
}

/// Coerce a row of values to the types of `columns`.
fn coerce_values(columns: &[ColumnDef], values: &[Value]) -> (r: DbResult<Vec<Value>>)
    ensures
        row_coercible(columns_view(columns@), values_view(values@)) ==> (r matches Ok(x)
            && values_view(x@) == coerced_row(columns_view(columns@), values_view(values@))),
        !row_coercible(columns_view(columns@), values_view(values@)) ==> (r matches Err(e) && e is User),
{
    let ghost cols = columns_view(columns@);
    let ghost vs = values_view(values@);
    if columns.len() != values.len() {
        return Err(user_error("INSERT value count does not match column count"));
    }
    let mut out: Vec<Value> = Vec::new();
    let mut i: usize = 0;
    while i < values.len()
        invariant
            i <= values@.len(),
            columns@.len() == values@.len(),
            cols == columns_view(columns@),
            vs == values_view(values@),
            forall|j: int| 0 <= j < i ==> (#[trigger] coerce_spec(cols[j].sql_type, vs[j])) is Some,
            values_view(out@) == coerced_row(cols, vs).subrange(0, i as int),
        decreases values@.len() - i,
    {
        proof {
            assert(cols[i as int] == columns@[i as int]@);
            assert(vs[i as int] == values@[i as int]@);
        }
        let v = match coerce_value(&columns[i], &values[i]) {
            Ok(v) => v,
            Err(e) => {
                proof {
                    assert(coerce_spec(cols[i as int].sql_type, vs[i as int]) is None);
                }
                return Err(e);
            },
        };
        let ghost before = values_view(out@);
        let ghost vv = v@;
        out.push(v);
        proof {
            assert(values_view(out@) =~= before.push(vv));
        }
        i = i + 1;
        proof {
            assert(values_view(out@) =~= coerced_row(cols, vs).subrange(0, i as int));
        }
    }
    proof {
        assert(coerced_row(cols, vs).subrange(0, i as int) =~= coerced_row(cols, vs));
    }
    Ok(out)
}

// ---------------------------------------------------------------------------
// Columns and projections.

/// First position at or after `i` of a column named `name`.
pub open spec fn col_pos(cols: Seq<ColumnView>, name: Seq<char>, i: int) -> Option<int>
    decreases cols.len() - i,
{
    if i < 0 || i >= cols.len() {
        None
    } else if cols[i].name == name {
        Some(i)
    } else {
        col_pos(cols, name, i + 1)
    }
}

proof fn lemma_col_pos_range(cols: Seq<ColumnView>, name: Seq<char>, i: int)
    ensures
        col_pos(cols, name, i) matches Some(k) ==> i <= k < cols.len() && cols[k].name == name,
    decreases cols.len() - i,
{
    if i >= 0 && i < cols.len() && cols[i].name != name {
        lemma_col_pos_range(cols, name, i + 1);
    }
}

fn resolve_column_index(columns: &[ColumnDef], name: &str) -> (r: DbResult<usize>)
    ensures
        match col_pos(columns_view(columns@), name@, 0) {
            Some(k) => r matches Ok(x) && x == k && k < columns@.len(),
            None => r matches Err(e) && e is User,
        },
{
    let ghost cols = columns_view(columns@);
    proof {
        lemma_col_pos_range(cols, name@, 0);
    }
    let mut i: usize = 0;
    while i < columns.len()
        invariant
            i <= columns@.len(),
            cols == columns_view(columns@),
            col_pos(cols, name@, 0) == col_pos(cols, name@, i as int),
        decreases columns@.len() - i,
    {
        if crate::codec::str_eq(columns[i].name.as_str(), name) {
            return Ok(i);
        }
        i = i + 1;
    }
    Err(user_error("unknown column"))
}

/// The positions that a projection selects, or `None` when it names an
/// unknown column.
pub open spec fn projection_indexes(cols: Seq<ColumnView>, proj: ProjectionView) -> Option<Seq<int>> {
    match proj {
        ProjectionView::All => Some(Seq::new(cols.len(), |i: int| i)),
        ProjectionView::Columns(names) => resolve_names(cols, names, 0, Seq::empty()),
    }
}

pub open spec fn resolve_names(cols: Seq<ColumnView>, names: Seq<Seq<char>>, k: int, acc: Seq<int>) -> Option<Seq<int>>
    decreases names.len() - k,
{
    if k < 0 || k >= names.len() {
        Some(acc)
    } else {
        match col_pos(cols, names[k], 0) {
            Some(i) => resolve_names(cols, names, k + 1, acc.push(i)),
            None => None,
        }
    }
}

/// Integer values of a list of positions.
pub open spec fn usizes_view(v: Seq<usize>) -> Seq<int> {
    v.map_values(|x: usize| x as int)
}

fn resolve_projection(columns: &[ColumnDef], projection: &Projection) -> (r: DbResult<Vec<usize>>)
    ensures
        match projection_indexes(columns_view(columns@), projection@) {
            Some(ix) => r matches Ok(x) && usizes_view(x@) == ix,
            None => r matches Err(e) && e is User,
        },
        r matches Ok(x) ==> forall|j: int| 0 <= j < x@.len() ==> #[trigger] x@[j] < columns@.len(),
{
    let ghost cols = columns_view(columns@);
    let mut out: Vec<usize> = Vec::new();
    match projection {
        Projection::All => {
            let mut i: usize = 0;
            while i < columns.len()
                invariant
                    i <= columns@.len(),
                    usizes_view(out@) == Seq::new(i as nat, |j: int| j),
                decreases columns@.len() - i,
            {
                let ghost before = usizes_view(out@);
                out.push(i);
                proof {
                    assert(usizes_view(out@) =~= before.push(i as int));
                }
                i = i + 1;
                proof {
                    assert(usizes_view(out@) =~= Seq::new(i as nat, |j: int| j));
                }
            }
            proof {
                assert forall|j: int| 0 <= j < out@.len() implies #[trigger] out@[j] < columns@.len() by {
                    assert(usizes_view(out@)[j] == j);
                }
            }
            Ok(out)
        },
        Projection::Columns(names) => {
            let ghost ns = names_view(names@);
            assert(projection@ == ProjectionView::Columns(ns));
            let mut k: usize = 0;
            proof {
                assert(usizes_view(out@) =~= Seq::<int>::empty());
            }
            while k < names.len()
                invariant
                    k <= names@.len(),
                    cols == columns_view(columns@),
                    ns == names_view(names@),
                    projection@ == ProjectionView::Columns(ns),
                    resolve_names(cols, ns, 0, Seq::empty()) == resolve_names(cols, ns, k as int, usizes_view(out@)),
                    forall|j: int| 0 <= j < out@.len() ==> #[trigger] out@[j] < columns@.len(),
                decreases names@.len() - k,
            {
                proof {
                    assert(ns[k as int] == names@[k as int]@);
                }
                let ghost before = usizes_view(out@);
                let nm = names[k].as_str();
                proof {
                    assert(nm@ == ns[k as int]);
                }
                let i = match resolve_column_index(columns, nm) {
                    Ok(i) => i,
                    Err(e) => {
                        proof {
                            assert(resolve_names(cols, ns, k as int, before) is None);
                            assert(projection@ == ProjectionView::Columns(ns));
                        }
                        return Err(e);
                    },
                };
                out.push(i);
                proof {
                    assert(usizes_view(out@) =~= before.push(i as int));
                    assert(resolve_names(cols, ns, k as int, before) == resolve_names(cols, ns, k + 1, before.push(i as int)));
                }
                k = k + 1;
            }
            Ok(out)
        },
    }
}

// ---------------------------------------------------------------------------
// Selecting rows.

/// The values at positions `ix`, in that order.
pub open spec fn project(vals: Seq<ValueView>, ix: Seq<int>) -> Seq<ValueView> {
    Seq::new(ix.len(), |k: int| vals[ix[k]])
}

/// Whether the predicate, when there is one, holds of the row.
pub open spec fn keeps(vals: Seq<ValueView>, sel: Option<(int, ValueView)>) -> bool {
    match sel {
        Some((i, v)) => sql_equal(vals[i], v),
        None => true,
    }
}

/// The answer rows for stored row records `rows`, after `acc`: each record is
/// decoded and must have `width` values; those that the predicate keeps are
/// projected. `None` when a record does not decode or has another width.
pub open spec fn select_rows(rows: Seq<Seq<u8>>, width: int, ix: Seq<int>, sel: Option<(int, ValueView)>, acc: Seq<Seq<ValueView>>) -> Option<Seq<Seq<ValueView>>>
    decreases rows.len(),
{
    if rows.len() == 0 {
        Some(acc)
    } else {
        match pr_row(rows[0]) {
            Some(vals) => if vals.len() != width {
                None
            } else {
                let acc2 = if keeps(vals, sel) { acc.push(project(vals, ix)) } else { acc };
                select_rows(rows.drop_first(), width, ix, sel, acc2)
            },
            None => None,
        }
    }
}

/// Selecting further rows keeps the answer rows already collected.
proof fn lemma_select_rows_keeps(rows: Seq<Seq<u8>>, width: int, ix: Seq<int>, sel: Option<(int, ValueView)>, acc: Seq<Seq<ValueView>>)
    requires
        select_rows(rows, width, ix, sel, acc) is Some,
    ensures
        select_rows(rows, width, ix, sel, acc)->0.len() >= acc.len(),
        forall|k: int| 0 <= k < acc.len() ==> #[trigger] select_rows(rows, width, ix, sel, acc)->0[k] == acc[k],
    decreases rows.len(),
{
    if rows.len() > 0 {
        let vals = pr_row(rows[0])->0;
        let acc2 = if keeps(vals, sel) { acc.push(project(vals, ix)) } else { acc };
        lemma_select_rows_keeps(rows.drop_first(), width, ix, sel, acc2);
        assert forall|k: int| 0 <= k < acc.len() implies #[trigger] select_rows(rows, width, ix, sel, acc)->0[k] == acc[k] by {
            assert(acc2[k] == acc[k]);
        }
    }
}

/// A SELECT of every column without a predicate answers, among its rows,
/// the values of each record it reads.
proof fn lemma_select_all_has(rows: Seq<Seq<u8>>, vs: Seq<ValueView>, acc: Seq<Seq<ValueView>>)
    requires
        rows.contains(e_row(vs)),
        row_encodable(vs),
        select_rows(rows, vs.len() as int, Seq::new(vs.len(), |i: int| i), None, acc) is Some,
    ensures
        select_rows(rows, vs.len() as int, Seq::new(vs.len(), |i: int| i), None, acc)->0.contains(vs),
    decreases rows.len(),
{
    let ix = Seq::new(vs.len(), |i: int| i);
    let width = vs.len() as int;
    lemma_row_roundtrip(vs);
    let vals = pr_row(rows[0])->0;
    let acc2 = acc.push(project(vals, ix));
    if rows[0] == e_row(vs) {
        assert(project(vs, ix) =~= vs);
        lemma_select_rows_keeps(rows.drop_first(), width, ix, None, acc2);
        let out = select_rows(rows, width, ix, None, acc)->0;
        assert(out[acc.len() as int] == acc2[acc.len() as int]);
    } else {
        let k = choose|k: int| 0 <= k < rows.len() && rows[k] == e_row(vs);
        assert(rows.drop_first()[k - 1] == e_row(vs));
        lemma_select_all_has(rows.drop_first(), vs, acc2);
    }
}

/// Law (write, then read): a row stored on one of a table's heap pages, as a
/// successful INSERT leaves it (`row_inserted`), is among the rows that a
/// `SELECT *` without a predicate answers from a full scan of those pages
/// (`scan_query`), whenever that scan and the selection succeed.
pub proof fn law_inserted_row_selected(data: Seq<u8>, pages: Seq<u64>, row: RowId, vs: Seq<ValueView>,
    rows: Seq<(RowId, Seq<u8>)>, out: Seq<Seq<ValueView>>)
    requires
        pages.contains(row.page_id.0),
        stored_record(data, row) == Some(e_row(vs)),
        row_encodable(vs),
        scan_rows(data, pages, pages.len() as int) == Some(rows),
        select_rows(record_bytes(rows), vs.len() as int, Seq::new(vs.len(), |i: int| i), None, Seq::empty()) == Some(out),
    ensures
        out.contains(vs),
{
    crate::catalog::lemma_stored_row_scanned(data, pages, pages.len() as int, row, e_row(vs));
    let q = choose|q: int| 0 <= q < rows.len() && rows[q] == (row, e_row(vs));
    assert(record_bytes(rows)[q] == e_row(vs));
    lemma_select_all_has(record_bytes(rows), vs, Seq::empty());
}

/// The record bytes of stored rows.
pub open spec fn heap_bytes(rows: Seq<HeapRow>) -> Seq<Seq<u8>> {
    rows.map_values(|h: HeapRow| h.bytes@)
}

/// Values of answer rows.
pub open spec fn rows_view(rows: Seq<Vec<Value>>) -> Seq<Seq<ValueView>> {
    rows.map_values(|r: Vec<Value>| values_view(r@))
}

/// Value of a resolved predicate.
pub open spec fn selection_view(sel: Option<(usize, &Value)>) -> Option<(int, ValueView)> {
    match sel {
        Some((i, v)) => Some((i as int, v@)),
        None => None,
    }
}

/// Decode each stored row, check its width, keep the rows whose value at the
/// selection column equals the selection value, and project them.
pub fn project_rows(heap_rows: &[HeapRow], width: usize, projected: &[usize], selection: Option<(usize, &Value)>) -> (r: DbResult<Vec<Vec<Value>>>)
    requires
        forall|j: int| 0 <= j < projected@.len() ==> #[trigger] projected@[j] < width,
        selection matches Some((i, v)) ==> i < width,
    ensures
        match select_rows(heap_bytes(heap_rows@), width as int, usizes_view(projected@), selection_view(selection), Seq::empty()) {
            Some(rows) => r matches Ok(x) && rows_view(x@) == rows,
            None => r matches Err(e) && e is Corruption,
        },
{
    let ghost hb = heap_bytes(heap_rows@);
    let ghost ix = usizes_view(projected@);
    let ghost sel = selection_view(selection);
    let mut out: Vec<Vec<Value>> = Vec::new();
    let mut n: usize = 0;
    proof {
        assert(rows_view(out@) =~= Seq::<Seq<ValueView>>::empty());
        assert(hb.subrange(0, hb.len() as int) =~= hb);
    }
    while n < heap_rows.len()
        invariant
            n <= heap_rows@.len(),
            hb == heap_bytes(heap_rows@),
            ix == usizes_view(projected@),
            sel == selection_view(selection),
            forall|j: int| 0 <= j < projected@.len() ==> #[trigger] projected@[j] < width,
            selection matches Some((i, v)) ==> i < width,
            select_rows(hb, width as int, ix, sel, Seq::empty())
                == select_rows(hb.subrange(n as int, hb.len() as int), width as int, ix, sel, rows_view(out@)),
        decreases heap_rows@.len() - n,
    {
        let ghost rest = hb.subrange(n as int, hb.len() as int);
        proof {
            assert(rest[0] == heap_rows@[n as int].bytes@);
            assert(rest.drop_first() =~= hb.subrange(n + 1, hb.len() as int));
        }
        let values = decode_row(&heap_rows[n].bytes)?;
        if values.len() != width {
            return Err(corruption("SQL row value count does not match catalog column count"));
        }
        let keep = match selection {
            Some((i, v)) => sql_values_equal(&values[i], v),
            None => true,
        };
        if keep {
            let mut row: Vec<Value> = Vec::new();
            let mut k: usize = 0;
            while k < projected.len()
                invariant
                    k <= projected@.len(),
                    values@.len() == width,
                    forall|j: int| 0 <= j < projected@.len() ==> #[trigger] projected@[j] < width,
                    values_view(row@) == project(values_view(values@), ix).subrange(0, k as int),
                    ix == usizes_view(projected@),
                decreases projected@.len() - k,
            {
                let v = copy_value(&values[projected[k]]);
                let ghost before = values_view(row@);
                let ghost vv = v@;
                row.push(v);
                proof {
                    assert(values_view(row@) =~= before.push(vv));
                }
                k = k + 1;
                proof {
                    assert(values_view(row@) =~= project(values_view(values@), ix).subrange(0, k as int));
                }
            }
            proof {
                assert(project(values_view(values@), ix).subrange(0, k as int) =~= project(values_view(values@), ix));
            }
            let ghost before = rows_view(out@);
            let ghost rv = values_view(row@);
            out.push(row);
            proof {
                assert(rows_view(out@) =~= before.push(rv));
            }
        }
        n = n + 1;
    }
    proof {
        assert(hb.subrange(n as int, hb.len() as int) =~= Seq::<Seq<u8>>::empty());
    }
    Ok(out)
}

// ---------------------------------------------------------------------------
// Executing statements.

/// The index key a value is filed under, if any.
pub open spec fn index_key_of(v: ValueView) -> Option<KeyView> {
    match v {
        ValueView::Integer(x) => Some(KeyView::Integer(x)),
        ValueView::Text(t) => Some(KeyView::Text(t)),
        _ => None,
    }
}

fn index_key_from_value(value: &Value) -> (r: Option<IndexKey>)
    ensures
        match index_key_of(value@) {
            Some(k) => r matches Some(x) && x@ == k,
            None => r is None,
        },
{
    match value {
        Value::Integer(x) => Some(IndexKey::Integer(*x)),
        Value::Text(t) => Some(IndexKey::Text(t.clone())),
        _ => None,
    }
}

/// Column types that an index can be built on.
pub open spec fn indexable_type(t: Seq<char>) -> bool {
    is_integer_type(t) || t == "TEXT"@
}

fn ensure_indexable_column(column: &ColumnDef) -> (r: DbResult<()>)
    ensures
        r is Ok <==> indexable_type(column@.sql_type),
        r matches Err(e) ==> e is User,
{
    let t = column.sql_type.as_str();
    if crate::codec::str_eq(t, "INT") || crate::codec::str_eq(t, "INTEGER") || crate::codec::str_eq(t, "TEXT") {
        Ok(())
    } else {
        Err(user_error("column type is not indexable"))
    }
}

fn lookup_relation<F: VfsFile>(store: &TransactionalStore<F>, table: &str) -> (r: DbResult<RelationInfo>)
    ensures
        !has_name(store@.catalog.relations, table@) ==> (r matches Err(e) && e is User),
        r matches Ok(rel) ==> exists|i: int| #[trigger] first_with_name(store@.catalog.relations, table@, i)
            && rel@ == store@.catalog.relations[i],
        has_name(store@.catalog.relations, table@) ==> r is Ok,
{
    match store.catalog().relation_by_name(table) {
        Some(relation) => Ok(relation.duplicate()),
        None => Err(user_error("unknown relation")),
    }
}

/// The first index relation of the committed catalog over column `column` of
/// table `table_id`.
fn find_index_on_column<F: VfsFile>(store: &TransactionalStore<F>, table_id: RelationId, column: &str) -> (r: Option<RelationInfo>)
    ensures
        r matches Some(x) ==> is_index_on_column(x@, table_id.0, column@) && has_index_on_column(store@.catalog, table_id.0, column@)
            && exists|j: int| 0 <= j < store@.catalog.relations.len() && store@.catalog.relations[j] == x@,
        r is None ==> !has_index_on_column(store@.catalog, table_id.0, column@),
{
    let indexes = store.catalog().indexes_on_table(table_id);
    let ghost rels = store@.catalog.relations;
    let ghost pred = |rel: RelationView| is_index_on(rel, table_id.0);
    let mut i: usize = 0;
    while i < indexes.len()
        invariant
            i <= indexes@.len(),
            forall|k: int| 0 <= k < indexes@.len() ==> is_index_on(#[trigger] indexes@[k]@, table_id.0),
            forall|k: int| 0 <= k < i ==> !is_index_on_column(#[trigger] indexes@[k]@, table_id.0, column@),
            indexes@.map_values(|x: &RelationInfo| x@) == rels.filter(pred),
            pred == (|rel: RelationView| is_index_on(rel, table_id.0)),
            rels == store@.catalog.relations,
        decreases indexes@.len() - i,
    {
        let relation = indexes[i];
        proof {
            assert(is_index_on(indexes@[i as int]@, table_id.0));
        }
        match relation.index_storage() {
            Some(storage) => {
                if crate::codec::str_eq(storage.column_name(), column) {
                    let found = relation.duplicate();
                    proof {
                        let fv = indexes@.map_values(|x: &RelationInfo| x@);
                        assert(fv == rels.filter(pred));
                        assert(fv[i as int] == found@);
                        assert(fv.contains(found@));
                        rels.lemma_filter_contains_rev(pred, found@);
                        let j = choose|j: int| 0 <= j < rels.len() && rels[j] == found@;
                        assert(is_index_on_column(rels[j], table_id.0, column@));
                        assert(0 <= j < store@.catalog.relations.len() && store@.catalog.relations[j] == found@);
                    }
                    return Some(found);
                }
            },
            None => {},
        }
        i = i + 1;
    }
    proof {
        let fv = indexes@.map_values(|x: &RelationInfo| x@);
        assert(fv == rels.filter(pred));
        assert forall|j: int| 0 <= j < rels.len() implies !#[trigger] is_index_on_column(rels[j], table_id.0, column@) by {
            if is_index_on_column(rels[j], table_id.0, column@) {
                rels.lemma_filter_contains(pred, j);
                let k = choose|k: int| 0 <= k < fv.len() && fv[k] == rels[j];
                assert(fv[k] == indexes@[k]@);
            }
        }
    }
    None
}

/// Each of `rows` is stored in data-file bytes `c` at its row id, and the
/// index holds that row id under the key of the predicate's value.
pub open spec fn indexed_rows(c: Seq<u8>, sel: Option<(Seq<char>, ValueView)>, rows: Seq<HeapRow>) -> bool {
    sel matches Some((col, v)) && index_key_of(v) matches Some(key)
        && forall|k: int| 0 <= k < rows.len() ==> {
            &&& stored_record(c, #[trigger] rows[k].row_id) == Some(rows[k].bytes@)
            &&& row_held(file_pages(c), key, rows[k].row_id)
        }
}

/// The rows stored in data-file bytes `c` at row ids `ids`, in that order;
/// a row id with no stored record is passed over.
pub open spec fn stored_rows(c: Seq<u8>, ids: Seq<RowId>) -> Seq<(RowId, Seq<u8>)>
    decreases ids.len(),
{
    if ids.len() == 0 {
        Seq::empty()
    } else {
        stored_rows(c, ids.drop_last()) + match stored_record(c, ids.last()) {
            Some(b) => seq![(ids.last(), b)],
            None => Seq::<(RowId, Seq<u8>)>::empty(),
        }
    }
}

/// Candidates `rows` of a SELECT with predicate `sel` on table `table`, read
/// through an index of catalog `cat` over data-file bytes `c`: an index
/// relation on the predicate's column whose lookup of the predicate's key
/// succeeds, and `rows` are the rows stored at every row id it answers, in
/// that order.
pub open spec fn index_candidates(cat: CatalogView, c: Seq<u8>, table: u64, sel: Option<(Seq<char>, ValueView)>, rows: Seq<HeapRow>) -> bool {
    sel matches Some((col, v)) && index_key_of(v) is Some && exists|j: int|
        0 <= j < cat.relations.len() && #[trigger] is_index_on_column(cat.relations[j], table, col)
        && index_root(cat, cat.relations[j].id) is Some
        && lookup_spec(file_pages(c), index_root(cat, cat.relations[j].id)->0, index_key_of(v)->0) is Some
        && heap_rows_view(rows) == stored_rows(c, lookup_spec(file_pages(c), index_root(cat, cat.relations[j].id)->0, index_key_of(v)->0)->0)
}

/// The catalog has an index relation over column `column` of table `table`.
pub open spec fn has_index_on_column(c: CatalogView, table: u64, column: Seq<char>) -> bool {
    exists|j: int| 0 <= j < c.relations.len() && #[trigger] is_index_on_column(c.relations[j], table, column)
}

/// A SELECT with predicate `sel` on table `table` reads candidates through an
/// index: the predicate's column has an index and its value can be a key.
pub open spec fn uses_index(c: CatalogView, table: u64, sel: Option<(Seq<char>, ValueView)>) -> bool {
    sel matches Some((col, v)) && index_key_of(v) is Some && has_index_on_column(c, table, col)
}

/// Rows that may match the selection: through an index on the selection
/// column when there is one, else the whole table.
fn candidate_rows<F: VfsFile>(store: &mut TransactionalStore<F>, relation: &RelationInfo, selection: Option<&Selection>) -> (r: DbResult<Vec<HeapRow>>)
    ensures
        final(store)@ == old(store)@,
        final(store).data_file() == old(store).data_file(),
        !uses_index(old(store)@.catalog, relation.id.0, selection_spec(selection))
            ==> scan_outcome(old(store)@.catalog, old(store).data_file(), relation.id.0, r),
        uses_index(old(store)@.catalog, relation.id.0, selection_spec(selection)) && old(store).data_file().modeled()
            ==> (r matches Ok(rows) ==> indexed_rows(old(store).data_file().contents(), selection_spec(selection), rows@)
                && index_candidates(old(store)@.catalog, old(store).data_file().contents(), relation.id.0, selection_spec(selection), rows@)),
{
    let sel = match selection {
        Some(s) => s,
        None => return store.full_scan(relation.id),
    };
    let index_relation = match find_index_on_column(store, relation.id, sel.column.as_str()) {
        Some(x) => x,
        None => return store.full_scan(relation.id),
    };
    let key = match index_key_from_value(&sel.value) {
        Some(k) => k,
        None => return store.full_scan(relation.id),
    };
    let row_ids = store.lookup_index(index_relation.id, &key)?;
    let ghost c0 = store.data_file().contents();
    proof {
        assert(row_ids@.subrange(0, 0) =~= Seq::<RowId>::empty());
    }
    let mut rows: Vec<HeapRow> = Vec::new();
    let mut i: usize = 0;
    while i < row_ids.len()
        invariant
            i <= row_ids@.len(),
            store@ == old(store)@,
            store.data_file() == old(store).data_file(),
            selection is Some,
            uses_index(old(store)@.catalog, relation.id.0, selection_spec(selection)),
            store.data_file().modeled() ==> forall|j: int| 0 <= j < row_ids@.len()
                ==> #[trigger] row_held(file_pages(store.data_file().contents()), key@, row_ids@[j]),
            key@ == index_key_of(sel.value@)->0,
            selection == Some(sel),
            store.data_file().modeled() ==> indexed_rows(store.data_file().contents(), selection_spec(selection), rows@),
            c0 == store.data_file().contents(),
            store.data_file().modeled() ==> heap_rows_view(rows@) == stored_rows(c0, row_ids@.subrange(0, i as int)),
        decreases row_ids@.len() - i,
    {
        let ghost before_rows = rows@;
        proof {
            let sub = row_ids@.subrange(0, i + 1);
            assert(sub.drop_last() =~= row_ids@.subrange(0, i as int));
            assert(sub.last() == row_ids@[i as int]);
        }
        let read = store.read_row(relation.id, row_ids[i])?;
        proof {
            if store.data_file().modeled() && read is None {
                assert(stored_rows(c0, row_ids@.subrange(0, i + 1)) =~= stored_rows(c0, row_ids@.subrange(0, i as int)));
            }
        }
        if let Some(row) = read {
            let ghost before = rows@;
            rows.push(row);
            proof {
                if store.data_file().modeled() {
                    assert(row_held(file_pages(store.data_file().contents()), key@, row_ids@[i as int]));
                    assert forall|k: int| 0 <= k < rows@.len() implies {
                        &&& stored_record(store.data_file().contents(), #[trigger] rows@[k].row_id) == Some(rows@[k].bytes@)
                        &&& row_held(file_pages(store.data_file().contents()), key@, rows@[k].row_id)
                    } by {
                        if k < before.len() {
                            assert(rows@[k] == before[k]);
                        }
                    }
                    assert(heap_rows_view(rows@) =~= heap_rows_view(before) + seq![(row.row_id, row.bytes@)]);
                    assert(stored_rows(c0, row_ids@.subrange(0, i + 1)) =~= stored_rows(c0, row_ids@.subrange(0, i as int))
                        + seq![(row_ids@[i as int], row.bytes@)]);
                }
            }
        }
        i = i + 1;
    }
    proof {
        if store.data_file().modeled() {
            assert(row_ids@.subrange(0, i as int) =~= row_ids@);
            let j = choose|j: int| 0 <= j < old(store)@.catalog.relations.len() && old(store)@.catalog.relations[j] == index_relation@;
            assert(is_index_on_column(old(store)@.catalog.relations[j], relation.id.0, sel.column@));
        }
    }
    Ok(rows)
}

/// The columns at positions `ix`, in that order.
pub open spec fn projected_columns(cols: Seq<ColumnView>, ix: Seq<int>) -> Seq<ColumnView> {
    Seq::new(ix.len(), |k: int| cols[ix[k]])
}

/// Value of an answer column.
pub open spec fn info_view(c: ColumnInfo) -> ColumnView {
    ColumnView { name: c.name@, sql_type: c.sql_type@ }
}

/// Values of answer columns.
pub open spec fn infos_view(cs: Seq<ColumnInfo>) -> Seq<ColumnView> {
    cs.map_values(|c: ColumnInfo| info_view(c))
}

/// What a SELECT on relation `rel` answers: `r` is a user error when the
/// projection or the predicate names an unknown column; otherwise, when it
/// succeeds, its columns are the projected ones and its rows are what
/// `select_rows` makes of some sequence of stored row records.
pub open spec fn query_outcome(rel: RelationView, proj: ProjectionView, sel: Option<(Seq<char>, ValueView)>, r: DbResult<ExecResult>) -> bool {
    match projection_indexes(rel.columns, proj) {
        None => r matches Err(e) && e is User,
        Some(ix) => match selection_index_spec(rel.columns, sel) {
            None => r matches Err(e) && e is User,
            Some(s) => r matches Ok(res) ==> (res matches ExecResult::Query { columns, rows }
                && query_answer(rel.columns, ix, s, columns@, rows@)),
        },
    }
}

/// The predicate with its column resolved to a position; `None` when the
/// column is unknown.
pub open spec fn selection_index_spec(cols: Seq<ColumnView>, sel: Option<(Seq<char>, ValueView)>) -> Option<Option<(int, ValueView)>> {
    match sel {
        Some((c, v)) => match col_pos(cols, c, 0) {
            Some(k) => Some(Some((k, v))),
            None => None,
        },
        None => Some(None),
    }
}

/// Columns and rows of an answer: the projected columns, and the rows that
/// `select_rows` makes of some sequence of stored row records.
pub open spec fn query_answer(cols: Seq<ColumnView>, ix: Seq<int>, s: Option<(int, ValueView)>, columns: Seq<ColumnInfo>, rows: Seq<Vec<Value>>) -> bool {
    &&& infos_view(columns) == projected_columns(cols, ix)
    &&& exists|stored: Seq<Seq<u8>>| select_rows(stored, cols.len() as int, ix, s, Seq::empty()) == Some(rows_view(rows))
}

/// Value of a parsed predicate.
/// A SELECT that reads the whole table (no predicate, or one that no index
/// serves) over a modeled data file answers from exactly the rows that a full
/// scan of the table gives, kept by the predicate and projected.
pub open spec fn scan_query<F: VfsFile>(c: CatalogView, file: F, rel: RelationView, proj: ProjectionView, sel: Option<(Seq<char>, ValueView)>, r: DbResult<ExecResult>) -> bool {
    r matches Ok(res) ==> (res matches ExecResult::Query { columns, rows } && exists|scanned: Vec<HeapRow>|
        #[trigger] scan_outcome(c, file, rel.id, Ok::<Vec<HeapRow>, DbError>(scanned))
        && match (projection_indexes(rel.columns, proj), selection_index_spec(rel.columns, sel)) {
            (Some(ix), Some(s)) => select_rows(heap_bytes(scanned@), rel.columns.len() as int, ix, s, Seq::empty()) == Some(rows_view(rows@)),
            _ => false,
        })
}

/// A SELECT that reads its candidates through an index, over a modeled data
/// file, answers from the rows stored at every row id that the index's lookup
/// of the predicate's key gives (`index_candidates`), each held by the index
/// under that key, kept by the predicate and projected.
pub open spec fn index_query<F: VfsFile>(cat: CatalogView, file: F, rel: RelationView, proj: ProjectionView, sel: Option<(Seq<char>, ValueView)>, r: DbResult<ExecResult>) -> bool {
    r matches Ok(res) ==> (res matches ExecResult::Query { columns, rows } && exists|cands: Seq<HeapRow>|
        #[trigger] indexed_rows(file.contents(), sel, cands)
        && index_candidates(cat, file.contents(), rel.id, sel, cands)
        && match (projection_indexes(rel.columns, proj), selection_index_spec(rel.columns, sel)) {
            (Some(ix), Some(s)) => select_rows(heap_bytes(cands), rel.columns.len() as int, ix, s, Seq::empty()) == Some(rows_view(rows@)),
            _ => false,
        })
}

pub open spec fn selection_spec(selection: Option<&Selection>) -> Option<(Seq<char>, ValueView)> {
    match selection {
        Some(s) => Some((s.column@, s.value@)),
        None => None,
    }
}

/// The record bytes of scanned rows.
pub open spec fn record_bytes(rows: Seq<(RowId, Seq<u8>)>) -> Seq<Seq<u8>> {
    rows.map_values(|x: (RowId, Seq<u8>)| x.1)
}

/// A SELECT on table `table` that reads the whole table cannot fail over
/// committed catalog `c` and data-file bytes `data`: the table exists, no
/// index serves the predicate, the projection and predicate name known
/// columns, the table's heap pages are valid heap pages, and every stored
/// record decodes to a row as wide as the table.
pub open spec fn select_ok(c: CatalogView, data: Seq<u8>, proj: ProjectionView, table: Seq<char>, sel: Option<(Seq<char>, ValueView)>) -> bool {
    &&& has_name(c.relations, table)
    &&& forall|i: int| #[trigger] first_with_name(c.relations, table, i) ==> {
        let rel = c.relations[i];
        &&& !uses_index(c, rel.id, sel)
        &&& projection_indexes(rel.columns, proj) is Some
        &&& selection_index_spec(rel.columns, sel) is Some
        &&& forall|j: int| #[trigger] first_with_id(c.relations, rel.id, j) ==> {
            let pages = storage_heap_pages(c.relations[j].storage);
            &&& c.relations[j].kind == RelationKind::Table
            &&& scan_rows(data, pages, pages.len() as int) matches Some(rows)
                && select_rows(record_bytes(rows), rel.columns.len() as int,
                    projection_indexes(rel.columns, proj)->0, selection_index_spec(rel.columns, sel)->0, Seq::empty()) is Some
        }
    }
}

#[verifier::spinoff_prover]
#[verifier::rlimit(60)]
fn execute_select<F: VfsFile>(store: &mut TransactionalStore<F>, projection: &Projection, table: &str, selection: Option<&Selection>) -> (r: DbResult<ExecResult>)
    ensures
        old(store).data_file().modeled() && select_ok(old(store)@.catalog, old(store).data_file().contents(), projection@, table@,
            selection_spec(selection)) ==> r is Ok,
        final(store)@ == old(store)@,
        !has_name(old(store)@.catalog.relations, table@) ==> (r matches Err(e) && e is User),
        has_name(old(store)@.catalog.relations, table@) ==> exists|i: int| #[trigger] first_with_name(old(store)@.catalog.relations, table@, i)
            && query_outcome(old(store)@.catalog.relations[i], projection@, selection_spec(selection), r)
            && (!uses_index(old(store)@.catalog, old(store)@.catalog.relations[i].id, selection_spec(selection))
                ==> scan_query(old(store)@.catalog, old(store).data_file(), old(store)@.catalog.relations[i], projection@, selection_spec(selection), r))
            && (uses_index(old(store)@.catalog, old(store)@.catalog.relations[i].id, selection_spec(selection)) && old(store).data_file().modeled()
                ==> index_query(old(store)@.catalog, old(store).data_file(), old(store)@.catalog.relations[i], projection@, selection_spec(selection), r)),
{
    let relation = lookup_relation(store, table)?;
    let ghost rel = relation@;
    let ghost i = choose|i: int| #[trigger] first_with_name(old(store)@.catalog.relations, table@, i) && rel == old(store)@.catalog.relations[i];
    let projected = resolve_projection(&relation.columns, projection)?;
    let selection_index = match selection {
        Some(sel) => {
            let k = match resolve_column_index(&relation.columns, sel.column.as_str()) {
                Ok(k) => k,
                Err(e) => {
                    assert(query_outcome(rel, projection@, selection_spec(selection), Err::<ExecResult, DbError>(e)));
                    return Err(e);
                },
            };
            Some((k, &sel.value))
        },
        None => None,
    };
    let candidates = candidate_rows(store, &relation, selection)?;
    proof {
        if old(store).data_file().modeled() && select_ok(old(store)@.catalog, old(store).data_file().contents(), projection@, table@,
            selection_spec(selection)) {
            let c = old(store)@.catalog;
            assert(has_id(c.relations, rel.id)) by {
                assert(c.relations[i].id == rel.id);
            }
            let j = choose|j: int| #[trigger] first_with_id(c.relations, rel.id, j) && (
                c.relations[j].kind == RelationKind::Table ==> {
                    let pages = storage_heap_pages(c.relations[j].storage);
                    match scan_rows(old(store).data_file().contents(), pages, pages.len() as int) {
                        Some(rows) => Ok::<Vec<HeapRow>, DbError>(candidates) matches Ok(x) && heap_rows_view(x@) == rows,
                        None => false,
                    }
                });
            let pages = storage_heap_pages(c.relations[j].storage);
            let rows = scan_rows(old(store).data_file().contents(), pages, pages.len() as int)->0;
            assert(heap_bytes(candidates@) =~= record_bytes(rows)) by {
                assert forall|k: int| 0 <= k < candidates@.len() implies #[trigger] heap_bytes(candidates@)[k]
                    == record_bytes(rows)[k] by {
                    assert(heap_rows_view(candidates@)[k] == rows[k]);
                }
            }
            assert(usizes_view(projected@) == projection_indexes(rel.columns, projection@)->0);
            assert(selection_view(selection_index) == selection_index_spec(rel.columns, selection_spec(selection))->0);
        }
    }
    let rows = project_rows(&candidates, relation.columns.len(), &projected, selection_index)?;
    let mut columns: Vec<ColumnInfo> = Vec::new();
    let mut k: usize = 0;
    while k < projected.len()
        invariant
            k <= projected@.len(),
            forall|j: int| 0 <= j < projected@.len() ==> #[trigger] projected@[j] < relation.columns@.len(),
            infos_view(columns@) == Seq::new(k as nat, |j: int| columns_view(relation.columns@)[projected@[j] as int]),
        decreases projected@.len() - k,
    {
        let c = &relation.columns[projected[k]];
        let info = ColumnInfo { name: c.name.clone(), sql_type: c.sql_type.clone() };
        let ghost before = infos_view(columns@);
        columns.push(info);
        proof {
            assert(infos_view(columns@) =~= before.push(info_view(info)));
        }
        k = k + 1;
        proof {
            assert(infos_view(columns@) =~= Seq::new(k as nat, |j: int| columns_view(relation.columns@)[projected@[j] as int]));
        }
    }
    let ghost cols = columns@;
    let ghost rws = rows@;
    let result = ExecResult::Query { columns, rows };
    proof {
        let ix = usizes_view(projected@);
        assert(rel.columns == columns_view(relation.columns@));
        assert(infos_view(cols) =~= projected_columns(rel.columns, ix));
        let stored = heap_bytes(candidates@);
        assert(select_rows(stored, rel.columns.len() as int, ix, selection_view(selection_index), Seq::empty()) == Some(rows_view(rws)));
        assert(projection_indexes(rel.columns, projection@) == Some(ix));
        assert(selection_index_spec(rel.columns, selection_spec(selection)) == Some(selection_view(selection_index)));
        assert(query_answer(rel.columns, ix, selection_view(selection_index), cols, rws));
        assert(query_outcome(rel, projection@, selection_spec(selection), Ok::<ExecResult, DbError>(result)));
        if !uses_index(old(store)@.catalog, rel.id, selection_spec(selection)) {
            assert(scan_outcome(old(store)@.catalog, old(store).data_file(), rel.id, Ok::<Vec<HeapRow>, DbError>(candidates)));
            assert(scan_query(old(store)@.catalog, old(store).data_file(), rel, projection@, selection_spec(selection), Ok::<ExecResult, DbError>(result)));
        } else if old(store).data_file().modeled() {
            assert(indexed_rows(old(store).data_file().contents(), selection_spec(selection), candidates@));
            assert(index_candidates(old(store)@.catalog, old(store).data_file().contents(), rel.id, selection_spec(selection), candidates@));
            assert(index_query(old(store)@.catalog, old(store).data_file(), rel, projection@, selection_spec(selection), Ok::<ExecResult, DbError>(result)));
        }
    }
    Ok(result)
}

/// Going from pages `p0` and working catalog `w0` to `p1` and `w1`, index
/// relation `ix` filed row `row` of a table with columns `cols` and values
/// `vals`: under the key of the row's value in the index's column, when that
/// value can be a key (`entry_filed`); else nothing changed.
pub open spec fn index_filing(p0: Map<u64, Seq<u8>>, w0: CatalogView, p1: Map<u64, Seq<u8>>, w1: CatalogView,
    ix: RelationView, cols: Seq<ColumnView>, vals: Seq<ValueView>, row: RowId) -> bool {
    &&& ix.storage is BPlusTree
    &&& col_pos(cols, ix.storage->BPlusTree_0.column_name, 0) is Some
    &&& match index_key_of(vals[col_pos(cols, ix.storage->BPlusTree_0.column_name, 0)->0]) {
        Some(key) => entry_filed(p0, w0, p1, w1, ix.id, EntryView { key, row_id: row }),
        None => p1 == p0 && w1 == w0,
    }
}

/// Pages `ps` and working catalogs `ws` trace the filing of row `row` of a
/// table with columns `cols` and values `vals` in each of the index relations
/// `ixs`, one after the other (`index_filing`).
pub open spec fn filing_trace(ps: Seq<Map<u64, Seq<u8>>>, ws: Seq<CatalogView>, ixs: Seq<RelationView>,
    cols: Seq<ColumnView>, vals: Seq<ValueView>, row: RowId) -> bool {
    &&& ps.len() == ixs.len() + 1
    &&& ws.len() == ixs.len() + 1
    &&& forall|k: int| 0 <= k < ixs.len() ==> index_filing(ps[k], ws[k], ps[k + 1], ws[k + 1], #[trigger] ixs[k], cols, vals, row)
}

/// Relation values of a list of relations.
pub open spec fn relations_view(v: Seq<RelationInfo>) -> Seq<RelationView> {
    v.map_values(|x: RelationInfo| x@)
}

/// Add index entries for a newly inserted row to every index of its table.
fn insert_index_entries<'a, F: VfsFile>(transaction: &mut Transaction<'a, F>, relation: &RelationInfo, index_relations: &Vec<RelationInfo>, values: &Vec<Value>, row_id: RowId) -> (r: DbResult<()>)
    requires
        old(transaction).wf(),
        values@.len() == relation.columns@.len(),
    ensures
        final(transaction).wf(),
        final(transaction).manager == old(transaction).manager,
        final(transaction).spec_state() == old(transaction).spec_state(),
        r is Ok && old(transaction).filing_ready() ==> final(transaction).filing_ready()
            && exists|ps: Seq<Map<u64, Seq<u8>>>, ws: Seq<CatalogView>|
                #[trigger] filing_trace(ps, ws, relations_view(index_relations@), columns_view(relation.columns@), values_view(values@), row_id)
                && ps[0] == old(transaction).tx_pages() && ws[0] == old(transaction).working()
                && ps.last() == final(transaction).tx_pages() && ws.last() == final(transaction).working(),
{
    let ghost ixs = relations_view(index_relations@);
    let ghost cols = columns_view(relation.columns@);
    let ghost vals = values_view(values@);
    let ghost ready = transaction.filing_ready();
    let ghost mut ps: Seq<Map<u64, Seq<u8>>> = seq![transaction.tx_pages()];
    let ghost mut ws: Seq<CatalogView> = seq![transaction.working()];
    let mut i: usize = 0;
    while i < index_relations.len()
        invariant
            i <= index_relations@.len(),
            transaction.wf(),
            transaction.manager == old(transaction).manager,
            transaction.spec_state() == old(transaction).spec_state(),
            values@.len() == relation.columns@.len(),
            ixs == relations_view(index_relations@),
            cols == columns_view(relation.columns@),
            vals == values_view(values@),
            ready == old(transaction).filing_ready(),
            ps.len() == i + 1,
            ws.len() == i + 1,
            ps[0] == old(transaction).tx_pages(),
            ws[0] == old(transaction).working(),
            ps[i as int] == transaction.tx_pages(),
            ws[i as int] == transaction.working(),
            ready ==> transaction.filing_ready(),
            ready ==> forall|k: int| 0 <= k < i ==> index_filing(ps[k], ws[k], ps[k + 1], ws[k + 1], #[trigger] ixs[k], cols, vals, row_id),
        decreases index_relations@.len() - i,
    {
        let index_relation = &index_relations[i];
        proof {
            assert(ixs[i as int] == index_relation@);
        }
        let storage = match index_relation.index_storage() {
            Some(s) => s,
            None => return Err(DbError::InternalInvariant("index relation without index storage")),
        };
        let column_index = resolve_column_index(&relation.columns, storage.column_name())?;
        proof {
            assert(vals[column_index as int] == values@[column_index as int]@);
        }
        let ghost p0 = transaction.tx_pages();
        let ghost w0 = transaction.working();
        if let Some(key) = index_key_from_value(&values[column_index]) {
            transaction.insert_index_entry(index_relation.id, key, row_id)?;
        }
        proof {
            let ghost_ps = ps;
            let ghost_ws = ws;
            ps = ps.push(transaction.tx_pages());
            ws = ws.push(transaction.working());
            assert(index_filing(p0, w0, transaction.tx_pages(), transaction.working(), ixs[i as int], cols, vals, row_id) || !ready);
            assert forall|k: int| 0 <= k < i + 1 && ready implies index_filing(ps[k], ws[k], ps[k + 1], ws[k + 1], #[trigger] ixs[k], cols, vals, row_id) by {
                if k < i {
                    assert(ps[k] == ghost_ps[k] && ps[k + 1] == ghost_ps[k + 1]);
                    assert(ws[k] == ghost_ws[k] && ws[k + 1] == ghost_ws[k + 1]);
                }
            }
        }
        i = i + 1;
    }
    proof {
        if ready {
            assert(filing_trace(ps, ws, ixs, cols, vals, row_id));
        }
    }
    Ok(())
}

/// Outcome shared by the statements that write: the writer slot is released,
/// an active writer makes them fail, and a failure leaves the catalog as it was.
pub open spec fn write_outcome(o: TxStoreView, f: TxStoreView, failed: bool) -> bool {
    &&& !o.active_writer ==> !f.active_writer
    &&& o.active_writer ==> failed && f == o
    &&& failed ==> f.catalog == o.catalog
}

/// What an INSERT into relation `rel` does: a user error when the values do
/// not fit the columns (count or types) or the row cannot be encoded, with
/// nothing written; else one row when it succeeds.
pub open spec fn insert_outcome(o: TxStoreView, f: TxStoreView, rel: RelationView, values: Seq<ValueView>, r: DbResult<ExecResult>) -> bool {
    &&& !row_coercible(rel.columns, values) ==> (r matches Err(e) && e is User && f == o)
    &&& row_coercible(rel.columns, values) && !row_encodable(coerced_row(rel.columns, values))
        ==> (r matches Err(e) && e is User && f == o)
    &&& r is Ok ==> r == Ok::<ExecResult, DbError>(ExecResult::StatementComplete { rows_affected: 1 })
}

/// After an INSERT of `values` into table `table` of catalog `c` left catalog
/// `f` and data-file bytes `data`: the row coerced to the table's column
/// types, which can be encoded, is stored at some row id, on a page that the
/// table's heap pages in `f` list.
pub open spec fn row_inserted(c: CatalogView, f: CatalogView, data: Seq<u8>, table: Seq<char>, values: Seq<ValueView>) -> bool {
    exists|i: int, row: RowId, j: int|
        #![trigger first_with_name(c.relations, table, i), stored_record(data, row), first_with_id(f.relations, c.relations[i].id, j)]
        first_with_name(c.relations, table, i)
        && row_encodable(coerced_row(c.relations[i].columns, values))
        && stored_record(data, row) == Some(e_row(coerced_row(c.relations[i].columns, values)))
        && first_with_id(f.relations, c.relations[i].id, j)
        && storage_heap_pages(f.relations[j].storage).contains(row.page_id.0)
}

/// The index relations of table `table` in catalog `c`, in catalog order.
pub open spec fn table_indexes(c: CatalogView, table: u64) -> Seq<RelationView> {
    c.relations.filter(|rel: RelationView| is_index_on(rel, table))
}

/// No heap page of table `table` of catalog `c` is the catalog page.
pub open spec fn heap_off_catalog(c: CatalogView, table: Seq<char>) -> bool {
    forall|i: int, j: int| #[trigger] first_with_name(c.relations, table, i) && #[trigger] first_with_id(c.relations, c.relations[i].id, j)
        ==> !storage_heap_pages(c.relations[j].storage).contains(CATALOG_PAGE)
}

/// After an INSERT of `values` into table `table` of catalog `c` left catalog
/// `f`: the stored row was filed in every index of the table, one after the
/// other, under the key of the coerced row's value in each index's column,
/// ending at `f` (`filing_trace`).
pub open spec fn row_filed(c: CatalogView, f: CatalogView, table: Seq<char>, values: Seq<ValueView>) -> bool {
    exists|i: int, row: RowId, ps: Seq<Map<u64, Seq<u8>>>, ws: Seq<CatalogView>|
        #![trigger first_with_name(c.relations, table, i), filing_trace(ps, ws, table_indexes(c, c.relations[i].id),
            c.relations[i].columns, coerced_row(c.relations[i].columns, values), row)]
        first_with_name(c.relations, table, i)
        && filing_trace(ps, ws, table_indexes(c, c.relations[i].id), c.relations[i].columns,
            coerced_row(c.relations[i].columns, values), row)
        && ws.last() == f
}

/// The table has an index relation./// The table has an index relation.
pub open spec fn has_index(c: CatalogView, table: u64) -> bool {
    exists|j: int| 0 <= j < c.relations.len() && #[trigger] is_index_on(c.relations[j], table)
}

/// An INSERT of `values` into table `table` cannot fail over a ready store
/// with committed catalog `c` and data-file bytes `data`: the table exists,
/// the values fit its columns and encode, the table has no index, and the
/// row's bytes can be stored (`autocommit_row_ok`).
pub open spec fn insert_stmt_ok(c: CatalogView, data: Seq<u8>, table: Seq<char>, values: Seq<ValueView>) -> bool {
    &&& has_name(c.relations, table)
    &&& forall|i: int| #[trigger] first_with_name(c.relations, table, i) ==> {
        let rel = c.relations[i];
        &&& row_coercible(rel.columns, values)
        &&& row_encodable(coerced_row(rel.columns, values))
        &&& !has_index(c, rel.id)
        &&& autocommit_row_ok(c, file_pages(data), rel.id, e_row(coerced_row(rel.columns, values)).len() as int)
    }
}

/// A catalog without an index on a table lists none for it.
proof fn lemma_no_index_listed(rels: Seq<RelationView>, c: CatalogView, table: u64, listed: Seq<RelationView>)
    requires
        rels == c.relations,
        !has_index(c, table),
        listed == rels.filter(|rel: RelationView| is_index_on(rel, table)),
        forall|k: int| 0 <= k < listed.len() ==> is_index_on(#[trigger] listed[k], table),
    ensures
        listed.len() == 0,
{
    let pred = |rel: RelationView| is_index_on(rel, table);
    if listed.len() > 0 {
        assert(listed.contains(listed[0]));
        rels.lemma_filter_contains_rev(pred, listed[0]);
        let j = choose|j: int| 0 <= j < rels.len() && rels[j] == listed[0];
        assert(is_index_on(listed[0], table));
        assert(is_index_on(rels[j], table));
    }
}

#[verifier::spinoff_prover]
#[verifier::rlimit(100)]
fn execute_insert<F: VfsFile>(store: &mut TransactionalStore<F>, table: &str, values: &Vec<Value>) -> (r: DbResult<ExecResult>)
    ensures
        write_outcome(old(store)@, final(store)@, r is Err),
        !has_name(old(store)@.catalog.relations, table@) ==> (r matches Err(e) && e is User && final(store)@ == old(store)@),
        has_name(old(store)@.catalog.relations, table@) ==> exists|i: int| #[trigger] first_with_name(old(store)@.catalog.relations, table@, i)
            && insert_outcome(old(store)@, final(store)@, old(store)@.catalog.relations[i], values_view(values@), r),
        old(store).ready() && insert_stmt_ok(old(store)@.catalog, old(store).data_file().contents(), table@, values_view(values@))
            ==> r is Ok && row_inserted(old(store)@.catalog, final(store)@.catalog, final(store).data_file().contents(), table@,
                values_view(values@)),
        r is Ok && old(store).data_file().modeled() && index_ready(old(store)@.catalog, old(store).data_file().contents())
            && heap_off_catalog(old(store)@.catalog, table@)
            ==> row_filed(old(store)@.catalog, final(store)@.catalog, table@, values_view(values@)),
{
    let ghost cat = store@.catalog;
    let ghost c0 = store.data_file().contents();
    let ghost w0 = store.wal_file().contents();
    let ghost vs = values_view(values@);
    let ghost cond = store.ready() && insert_stmt_ok(cat, c0, table@, vs);
    let relation = lookup_relation(store, table)?;
    let ghost rel = relation@;
    let ghost i = choose|i: int| #[trigger] first_with_name(old(store)@.catalog.relations, table@, i) && rel == old(store)@.catalog.relations[i];
    let values = coerce_values(&relation.columns, values)?;
    let bytes = encode_row(&values)?;
    let ghost record = bytes@;
    assert(record == e_row(coerced_row(rel.columns, vs)));
    let indexes = store.catalog().indexes_on_table(relation.id);
    proof {
        if cond {
            let listed = indexes@.map_values(|x: &RelationInfo| x@);
            assert forall|k: int| 0 <= k < listed.len() implies is_index_on(#[trigger] listed[k], relation.id.0) by {
                assert(listed[k] == indexes@[k]@);
            }
            lemma_no_index_listed(cat.relations, cat, relation.id.0, listed);
        }
    }
    let mut index_relations: Vec<RelationInfo> = Vec::new();
    let mut k: usize = 0;
    while k < indexes.len()
        invariant
            k <= indexes@.len(),
            index_relations@.len() == k,
            forall|m: int| 0 <= m < k ==> #[trigger] index_relations@[m]@ == indexes@[m]@,
        decreases indexes@.len() - k,
    {
        index_relations.push(indexes[k].duplicate());
        k = k + 1;
    }
    proof {
        assert(relations_view(index_relations@) =~= indexes@.map_values(|x: &RelationInfo| x@));
        assert(relations_view(index_relations@) == table_indexes(cat, relation.id.0));
    }
    let ghost filing = store.data_file().modeled() && index_ready(cat, c0) && heap_off_catalog(cat, table@);
    proof {
        lemma_encode_layout(WalRecordView { lsn: w0.len() as u64, kind: WalKindView::BeginTx(store@.next_tx_id) });
    }
    let mut transaction = store.begin()?;
    let ghost d0 = transaction.dirty();
    proof {
        if cond {
            transaction.lemma_row_insert_ready(c0, relation.id.0, record.len() as int);
        }
        if filing {
            transaction.lemma_nothing_staged(c0, true);
            crate::tx::lemma_pages_filing_ready_def(file_pages(c0), cat.next_page_id);
        }
    }
    let row_id = match transaction.insert_row(relation.id, &bytes) {
        Ok(row_id) => row_id,
        Err(e) => {
            transaction.abandon();
            return Err(e);
        },
    };
    proof {
        if filing {
            crate::tx::lemma_pages_filing_ready_def(file_pages(c0), cat.next_page_id);
            let j = choose|j: int| #[trigger] first_with_id(cat.relations, relation.id.0, j) && {
                ||| transaction.working() == cat && storage_heap_pages(cat.relations[j].storage).contains(row_id.page_id.0)
                ||| row_id.page_id.0 == cat.next_page_id && row_id.slot_id.0 == 0
                    && transaction.working() == crate::catalog::with_heap_page(CatalogView { next_page_id: (cat.next_page_id + 1) as u64, ..cat }, j, cat.next_page_id)
                    && transaction.catalog_page_current()
            };
            assert(cat.relations[i].id == relation.id.0);
            assert(row_id.page_id.0 != CATALOG_PAGE);
        }
    }
    let ghost p1 = transaction.tx_pages();
    let ghost w1 = transaction.working();
    if index_relations.len() > 0 {
        if let Err(e) = insert_index_entries(&mut transaction, &relation, &index_relations, &values, row_id) {
            transaction.abandon();
            return Err(e);
        }
    }
    let ghost w2 = transaction.working();
    proof {
        if filing {
            if index_relations.len() == 0 {
                let ps = seq![p1];
                let ws = seq![w1];
                assert(filing_trace(ps, ws, relations_view(index_relations@), columns_view(relation.columns@), values_view(values@), row_id));
                assert(ws.last() == w2);
            }
        }
    }
    proof {
        if cond {
            assert(d0.dom() =~= Set::<u64>::empty());
            transaction.lemma_row_commit_ready(c0, cat, relation.id.0, row_id, record,
                transaction.manager.wal_file().contents().len() as int);
        }
    }
    let ghost ids = transaction.staged_ids();
    let ghost imgs = transaction.staged();
    let ghost staged_row = transaction.dirty()[row_id.page_id.0];
    let ghost wk = transaction.working();
    transaction.commit()?;
    proof {
        if cond {
            let k = choose|k: int| 0 <= k < ids.len() && ids[k] == row_id.page_id.0 && imgs[k] == staged_row;
            let c = store.data_file().contents();
            let off = spec_page_offset(PageId(ids[k]));
            assert(c.subrange(off, off + PAGE_SIZE) == imgs[k]);
            assert(PageId(ids[k]) == row_id.page_id);
            assert(stored_record(c, row_id) == Some(record));
            let j = choose|j: int| #[trigger] first_with_id(wk.relations, relation.id.0, j)
                && storage_heap_pages(wk.relations[j].storage).contains(row_id.page_id.0);
            assert(store@.catalog == wk);
            assert(first_with_name(cat.relations, table@, i) && stored_record(c, row_id) == Some(record)
                && first_with_id(store@.catalog.relations, cat.relations[i].id, j));
        }
        if filing {
            assert(store@.catalog == w2);
            assert(rel.columns == columns_view(relation.columns@));
            assert(row_filed(cat, store@.catalog, table@, vs)) by {
                let (ps, ws) = choose|ps: Seq<Map<u64, Seq<u8>>>, ws: Seq<CatalogView>|
                    #[trigger] filing_trace(ps, ws, relations_view(index_relations@), columns_view(relation.columns@), values_view(values@), row_id)
                    && ws.last() == w2;
                assert(filing_trace(ps, ws, table_indexes(cat, cat.relations[i].id), cat.relations[i].columns,
                    coerced_row(cat.relations[i].columns, vs), row_id));
            }
        }
    }
    Ok(ExecResult::StatementComplete { rows_affected: 1 })
}

/// Add an entry for every stored row of the table to a new index.
/// Going from pages `p0` and working catalog `w0` to `p1` and `w1`, index
/// relation `idx` filed stored row `row` under the key of the row's value at
/// column `col`, when that value can be a key (`entry_filed`); else nothing
/// changed. The row's record decodes to a row of `width` values, `col` among
/// them.
pub open spec fn row_filing(p0: Map<u64, Seq<u8>>, w0: CatalogView, p1: Map<u64, Seq<u8>>, w1: CatalogView,
    row: (RowId, Seq<u8>), idx: u64, col: int, width: int) -> bool {
    &&& pr_row(row.1) is Some
    &&& pr_row(row.1)->0.len() == width
    &&& 0 <= col < width
    &&& match index_key_of(pr_row(row.1)->0[col]) {
        Some(key) => entry_filed(p0, w0, p1, w1, idx, EntryView { key, row_id: row.0 }),
        None => p1 == p0 && w1 == w0,
    }
}

/// Pages `ps` and working catalogs `ws` trace the filing of each of the
/// stored rows `rows`, each `width` values wide, in index relation `idx`, in
/// order (`row_filing`).
pub open spec fn scan_filing_trace(ps: Seq<Map<u64, Seq<u8>>>, ws: Seq<CatalogView>, rows: Seq<(RowId, Seq<u8>)>, idx: u64, col: int, width: int) -> bool {
    &&& ps.len() == rows.len() + 1
    &&& ws.len() == rows.len() + 1
    &&& forall|k: int| 0 <= k < rows.len() ==> row_filing(ps[k], ws[k], ps[k + 1], ws[k + 1], #[trigger] rows[k], idx, col, width)
}

fn index_existing_rows<'a, F: VfsFile>(transaction: &mut Transaction<'a, F>, relation: &RelationInfo, index_relation_id: RelationId, column_index: usize) -> (r: DbResult<()>)
    requires
        old(transaction).wf(),
        column_index < relation.columns@.len(),
    ensures
        final(transaction).wf(),
        final(transaction).manager == old(transaction).manager,
        final(transaction).spec_state() == old(transaction).spec_state(),
        r is Ok && old(transaction).filing_ready() && old(transaction).spec_state() == TransactionState::Active
            ==> final(transaction).filing_ready() && forall|i: int| #[trigger] first_with_id(old(transaction).working().relations, relation.id.0, i)
                && old(transaction).working().relations[i].kind == RelationKind::Table
                && page_map_rows(old(transaction).tx_pages(), storage_heap_pages(old(transaction).working().relations[i].storage),
                    storage_heap_pages(old(transaction).working().relations[i].storage).len() as int) is Some
                ==> exists|ps: Seq<Map<u64, Seq<u8>>>, ws: Seq<CatalogView>|
                    #[trigger] scan_filing_trace(ps, ws, page_map_rows(old(transaction).tx_pages(),
                        storage_heap_pages(old(transaction).working().relations[i].storage),
                        storage_heap_pages(old(transaction).working().relations[i].storage).len() as int)->0,
                        index_relation_id.0, column_index as int, relation.columns@.len() as int)
                    && ps[0] == old(transaction).tx_pages() && ws[0] == old(transaction).working()
                    && ps.last() == final(transaction).tx_pages() && ws.last() == final(transaction).working(),
{
    let rows = transaction.full_scan(relation.id)?;
    let ghost scanned = heap_rows_view(rows@);
    let ghost ready = transaction.filing_ready();
    let ghost mut ps: Seq<Map<u64, Seq<u8>>> = seq![transaction.tx_pages()];
    let ghost mut ws: Seq<CatalogView> = seq![transaction.working()];
    let mut i: usize = 0;
    while i < rows.len()
        invariant
            i <= rows@.len(),
            transaction.wf(),
            transaction.manager == old(transaction).manager,
            transaction.spec_state() == old(transaction).spec_state(),
            column_index < relation.columns@.len(),
            scanned == heap_rows_view(rows@),
            ready == old(transaction).filing_ready(),
            ps.len() == i + 1,
            ws.len() == i + 1,
            ps[0] == old(transaction).tx_pages(),
            ws[0] == old(transaction).working(),
            ps[i as int] == transaction.tx_pages(),
            ws[i as int] == transaction.working(),
            ready ==> transaction.filing_ready(),
            ready ==> forall|k: int| 0 <= k < i ==> row_filing(ps[k], ws[k], ps[k + 1], ws[k + 1], #[trigger] scanned[k],
                index_relation_id.0, column_index as int, relation.columns@.len() as int),
        decreases rows@.len() - i,
    {
        let values = decode_row(&rows[i].bytes)?;
        if values.len() != relation.columns.len() {
            return Err(corruption("SQL row value count does not match catalog column count"));
        }
        proof {
            assert(scanned[i as int] == (rows@[i as int].row_id, rows@[i as int].bytes@));
            assert(values_view(values@)[column_index as int] == values@[column_index as int]@);
        }
        let ghost p0 = transaction.tx_pages();
        let ghost w0 = transaction.working();
        if let Some(key) = index_key_from_value(&values[column_index]) {
            transaction.insert_index_entry(index_relation_id, key, rows[i].row_id)?;
        }
        proof {
            let old_ps = ps;
            let old_ws = ws;
            ps = ps.push(transaction.tx_pages());
            ws = ws.push(transaction.working());
            assert(row_filing(p0, w0, transaction.tx_pages(), transaction.working(), scanned[i as int], index_relation_id.0,
                column_index as int, relation.columns@.len() as int) || !ready);
            assert forall|k: int| 0 <= k < i + 1 && ready implies row_filing(ps[k], ws[k], ps[k + 1], ws[k + 1], #[trigger] scanned[k],
                index_relation_id.0, column_index as int, relation.columns@.len() as int) by {
                if k < i {
                    assert(ps[k] == old_ps[k] && ps[k + 1] == old_ps[k + 1]);
                    assert(ws[k] == old_ws[k] && ws[k + 1] == old_ws[k + 1]);
                }
            }
        }
        i = i + 1;
    }
    proof {
        if ready && old(transaction).spec_state() == TransactionState::Active {
            assert(scan_filing_trace(ps, ws, scanned, index_relation_id.0, column_index as int, relation.columns@.len() as int));
            assert forall|j: int| #[trigger] first_with_id(old(transaction).working().relations, relation.id.0, j)
                && old(transaction).working().relations[j].kind == RelationKind::Table
                && page_map_rows(old(transaction).tx_pages(), storage_heap_pages(old(transaction).working().relations[j].storage),
                    storage_heap_pages(old(transaction).working().relations[j].storage).len() as int) is Some
                implies page_map_rows(old(transaction).tx_pages(), storage_heap_pages(old(transaction).working().relations[j].storage),
                    storage_heap_pages(old(transaction).working().relations[j].storage).len() as int)->0 == scanned by {
            }
        }
    }
    Ok(())
}

/// What a CREATE INDEX on column `column` of relation `rel` does: a user error
/// when the column is unknown or of a type that cannot be indexed, with
/// nothing written.
pub open spec fn create_index_outcome(o: TxStoreView, f: TxStoreView, rel: RelationView, column: Seq<char>, r: DbResult<ExecResult>) -> bool {
    &&& col_pos(rel.columns, column, 0) is None ==> (r matches Err(e) && e is User && f == o)
    &&& (match col_pos(rel.columns, column, 0) {
        Some(k) => !indexable_type(rel.columns[k].sql_type),
        None => false,
    }) ==> (r matches Err(e) && e is User && f == o)
    &&& r is Ok ==> r == Ok::<ExecResult, DbError>(ExecResult::StatementComplete { rows_affected: 0 })
}

/// A committed catalog `c` over data-file bytes `data` lets index filing be
/// traced: every page of the file is below the next page id, which is not the
/// catalog page's, and the catalog page holds no leaf.
pub open spec fn index_ready(c: CatalogView, data: Seq<u8>) -> bool {
    &&& forall|id: u64| #[trigger] file_pages(data).contains_key(id) ==> id < c.next_page_id
    &&& 0 < c.next_page_id
    &&& !leaf_page(file_pages(data), CATALOG_PAGE)
}

/// After a CREATE INDEX on column `column` of table `table`, over committed
/// catalog `c` and data-file bytes `data`, left catalog `f`: the pages the new
/// index saw are those of the file with its root page and the catalog page
/// written, and every row of the table's scan over them was filed in the new
/// index, one after the other, ending at `f` (`scan_filing_trace`).
pub open spec fn rows_indexed(c: CatalogView, data: Seq<u8>, f: CatalogView, table: Seq<char>, column: Seq<char>) -> bool {
    exists|i: int, x: Seq<u8>, y: Seq<u8>|
        #![trigger first_with_name(c.relations, table, i), file_pages(data).insert(c.next_page_id, x).insert(CATALOG_PAGE, y)]
        first_with_name(c.relations, table, i)
        && col_pos(c.relations[i].columns, column, 0) is Some
        && forall|j: int| #[trigger] first_with_id(c.relations, c.relations[i].id, j)
            && c.relations[j].kind == RelationKind::Table
            && page_map_rows(file_pages(data).insert(c.next_page_id, x).insert(CATALOG_PAGE, y),
                storage_heap_pages(c.relations[j].storage), storage_heap_pages(c.relations[j].storage).len() as int) is Some
            ==> exists|ps: Seq<Map<u64, Seq<u8>>>, ws: Seq<CatalogView>|
                #[trigger] scan_filing_trace(ps, ws, page_map_rows(file_pages(data).insert(c.next_page_id, x).insert(CATALOG_PAGE, y),
                    storage_heap_pages(c.relations[j].storage), storage_heap_pages(c.relations[j].storage).len() as int)->0,
                    c.next_relation_id, col_pos(c.relations[i].columns, column, 0)->0, c.relations[i].columns.len() as int)
                && ps[0] == file_pages(data).insert(c.next_page_id, x).insert(CATALOG_PAGE, y)
                && ws.last() == f
}

#[verifier::spinoff_prover]
#[verifier::rlimit(100)]
fn execute_create_index<F: VfsFile>(store: &mut TransactionalStore<F>, name: &str, table: &str, column: &str) -> (r: DbResult<ExecResult>)
    ensures
        write_outcome(old(store)@, final(store)@, r is Err),
        !has_name(old(store)@.catalog.relations, table@) ==> (r matches Err(e) && e is User && final(store)@ == old(store)@),
        has_name(old(store)@.catalog.relations, table@) ==> exists|i: int| #[trigger] first_with_name(old(store)@.catalog.relations, table@, i)
            && create_index_outcome(old(store)@, final(store)@, old(store)@.catalog.relations[i], column@, r),
        r is Ok && old(store).data_file().modeled() && index_ready(old(store)@.catalog, old(store).data_file().contents())
            ==> rows_indexed(old(store)@.catalog, old(store).data_file().contents(), final(store)@.catalog, table@, column@),
{
    let ghost c = store@.catalog;
    let ghost data = store.data_file().contents();
    let ghost cond = store.data_file().modeled() && index_ready(c, data);
    let relation = lookup_relation(store, table)?;
    let ghost rel = relation@;
    let ghost i = choose|i: int| #[trigger] first_with_name(old(store)@.catalog.relations, table@, i) && rel == old(store)@.catalog.relations[i];
    let column_index = resolve_column_index(&relation.columns, column)?;
    proof {
        assert(rel.columns[column_index as int] == relation.columns@[column_index as int]@);
    }
    ensure_indexable_column(&relation.columns[column_index])?;
    let mut transaction = store.begin()?;
    proof {
        if cond {
            transaction.lemma_nothing_staged(data, true);
            crate::tx::lemma_pages_filing_ready_def(file_pages(data), c.next_page_id);
            assert(transaction.filing_ready());
        }
    }
    let ghost w0 = transaction.working();
    let index_relation_id = match transaction.create_index(name, relation.id, column) {
        Ok((id, _root)) => id,
        Err(e) => {
            transaction.abandon();
            return Err(e);
        },
    };
    let ghost p0 = transaction.tx_pages();
    let ghost w1 = transaction.working();
    if let Err(e) = index_existing_rows(&mut transaction, &relation, index_relation_id, column_index) {
        transaction.abandon();
        return Err(e);
    }
    let ghost w2 = transaction.working();
    transaction.commit()?;
    proof {
        if cond {
            let x = p0[c.next_page_id];
            let y = p0[CATALOG_PAGE];
            assert(p0 == file_pages(data).insert(c.next_page_id, x).insert(CATALOG_PAGE, y));
            assert forall|j: int| #[trigger] first_with_id(c.relations, c.relations[i].id, j)
                && c.relations[j].kind == RelationKind::Table
                && page_map_rows(p0, storage_heap_pages(c.relations[j].storage), storage_heap_pages(c.relations[j].storage).len() as int) is Some
                implies exists|ps: Seq<Map<u64, Seq<u8>>>, ws: Seq<CatalogView>|
                    #[trigger] scan_filing_trace(ps, ws, page_map_rows(p0, storage_heap_pages(c.relations[j].storage),
                        storage_heap_pages(c.relations[j].storage).len() as int)->0,
                        c.next_relation_id, col_pos(c.relations[i].columns, column@, 0)->0, c.relations[i].columns.len() as int)
                    && ps[0] == p0 && ws.last() == store@.catalog by {
                assert(w1.relations.subrange(0, c.relations.len() as int) == c.relations);
                assert(w1.relations[j] == c.relations[j]);
                assert forall|m: int| 0 <= m < j implies #[trigger] w1.relations[m].id != c.relations[i].id by {
                    assert(w1.relations[m] == c.relations[m]);
                }
                assert(first_with_id(w1.relations, relation.id.0, j));
            }
            assert(rows_indexed(c, data, store@.catalog, table@, column@));
        }
    }
    Ok(ExecResult::StatementComplete { rows_affected: 0 })
}

/// A LOAD EXTENSION cannot fail over a ready store with committed catalog
/// `c`: it names the built-in `stdlib`, which the catalog either records
/// already just so or has room for.
pub open spec fn load_ok(c: CatalogView, name: Seq<char>) -> bool {
    &&& lower_str(name) == "stdlib"@
    &&& has_extension(c.extensions, "stdlib"@)
        ==> extension_registered_as(c.extensions, "stdlib"@, RDBMS_EXT_ABI_VERSION, "static"@)
    &&& !has_extension(c.extensions, "stdlib"@)
        ==> catalog_fits_page(with_extension(c, "stdlib"@, RDBMS_EXT_ABI_VERSION, "static"@))
}

/// `LOAD EXTENSION name`: record a built-in static extension in the catalog.
fn execute_load_extension<F: VfsFile>(store: &mut TransactionalStore<F>, name: &str) -> (r: DbResult<ExecResult>)
    ensures
        load_outcome(old(store)@, final(store)@, name@, r),
        old(store).ready() && load_ok(old(store)@.catalog, name@) ==> r is Ok,
{
    let descriptor = builtin_extension_descriptor(name)?;
    proof {
        reveal_strlit("stdlib");
        reveal_strlit("static");
        crate::codec::lemma_encode_utf8_len("stdlib"@);
        crate::codec::lemma_encode_utf8_len("static"@);
    }
    store.register_extension_autocommit(descriptor.name, descriptor.abi_version, descriptor.kind.as_str())?;
    Ok(ExecResult::StatementComplete { rows_affected: 0 })
}

/// What a `LOAD EXTENSION` does: only the built-in `stdlib` is known; loading
/// it records it in the catalog unless it is there already.
pub open spec fn load_outcome(o: TxStoreView, f: TxStoreView, name: Seq<char>, r: DbResult<ExecResult>) -> bool {
    &&& lower_str(name) != "stdlib"@ ==> (r matches Err(e) && e is Extension && f == o)
    &&& lower_str(name) == "stdlib"@ ==> write_outcome(o, f, r is Err)
    &&& r is Ok ==> r == Ok::<ExecResult, DbError>(ExecResult::StatementComplete { rows_affected: 0 })
        && (f.catalog == o.catalog || f.catalog == with_extension(o.catalog, "stdlib"@, RDBMS_EXT_ABI_VERSION, "static"@))
}

/// What `SELECT f(args)` answers when it succeeds: the `stdlib` function
/// named `f` (ASCII case-insensitively), called with as many arguments as it
/// takes, gives one column named `f` typed by the function's return type, and
/// one row holding the function's result on the arguments.
pub open spec fn call_outcome(name: Seq<char>, args: Seq<ValueView>, r: DbResult<ExecResult>) -> bool {
    r matches Ok(res) ==> (res matches ExecResult::Query { columns, rows } && stdlib_function(lower_str(name)) matches Some((f, ty)) && {
        &&& columns@.len() == 1 && columns@[0].name@ == name && columns@[0].sql_type@ == ty
        &&& args.len() == reads_args(f)
        &&& rows@.len() == 1 && rows@[0]@.len() == 1
        &&& scalar_result(f, args) == Some(rows@[0]@[0]@)
    })
}

/// `SELECT f(args)` succeeds: the catalog records extensions, each of them
/// one the runtime can load, and the `stdlib` function named `f` takes that
/// many arguments and has a result on them.
pub open spec fn call_ok(exts: Seq<ExtensionView>, name: Seq<char>, args: Seq<ValueView>) -> bool {
    &&& exts.len() > 0
    &&& forall|i: int| 0 <= i < exts.len() ==> installed_ok((#[trigger] exts[i]).name, exts[i].abi_version, exts[i].kind)
    &&& stdlib_function(lower_str(name)) matches Some((f, _))
    &&& args.len() == reads_args(f)
    &&& scalar_result(f, args) is Some
}

/// `SELECT f(args)`: call a scalar function of the extensions recorded in the
/// catalog.
fn execute_call<F: VfsFile>(store: &TransactionalStore<F>, name: &str, args: &Vec<Value>) -> (r: DbResult<ExecResult>)
    ensures
        call_outcome(name@, values_view(args@), r),
        call_ok(store@.catalog.extensions, name@, values_view(args@)) ==> r is Ok,
{
    let infos = store.catalog().extensions();
    let ghost exts = store@.catalog.extensions;
    let mut installed: Vec<(&str, u32, &str)> = Vec::new();
    let mut i: usize = 0;
    while i < infos.len()
        invariant
            i <= infos@.len(),
            installed@.len() == i,
            extensions_view(infos@) == exts,
            forall|j: int| 0 <= j < i ==> (#[trigger] installed@[j]).0@ == exts[j].name && installed@[j].1 == exts[j].abi_version
                && installed@[j].2@ == exts[j].kind,
        decreases infos@.len() - i,
    {
        let info: &ExtensionInfo = &infos[i];
        proof { assert(exts[i as int] == infos@[i as int]@); }
        installed.push((info.name.as_str(), info.abi_version, info.kind.as_str()));
        i = i + 1;
    }
    proof {
        if call_ok(exts, name@, values_view(args@)) {
            assert forall|j: int| 0 <= j < installed@.len()
                implies installed_ok((#[trigger] installed@[j]).0@, installed@[j].1, installed@[j].2@) by {
                assert(installed_ok(exts[j].name, exts[j].abi_version, exts[j].kind));
            }
        }
    }
    let registry = registry_from_installed_extensions(installed.as_slice())?;
    proof {
        if call_ok(exts, name@, values_view(args@)) {
            assert(args@.map_values(|v: Value| v@) =~= values_view(args@));
            let (f, ty) = stdlib_function(lower_str(name@))->0;
            assert(registry.function_names().contains(lower_str(name@)));
            assert forall|k: int| 0 <= k < registry.function_names().len() && registry.function_names()[k] == lower_str(name@)
                implies #[trigger] registry.functions()[k].arity == ScalarArity::Exact(args@.len() as usize)
                && args@.len() >= reads_args(registry.functions()[k].eval)
                && scalar_result(registry.functions()[k].eval, args@.map_values(|v: Value| v@)) is Some by {
                let fk = registry.functions()[k];
                assert(is_stdlib_function(fk));
                assert(fk.name@ == lower_str(name@));
            }
        }
    }
    let value = registry.call_scalar(name, args.as_slice())?;
    let function = match registry.scalar_function(name) {
        Some(f) => f,
        None => return Err(DbError::InternalInvariant("called function disappeared")),
    };
    let return_type = function.return_type;
    proof {
        assert(args@.map_values(|v: Value| v@) =~= values_view(args@));
        let i = choose|i: int| 0 <= i < registry.function_names().len()
            && registry.function_names()[i] == lower_str(name@)
            && #[trigger] registry.functions()[i].arity == ScalarArity::Exact(args@.len() as usize)
            && scalar_result(registry.functions()[i].eval, args@.map_values(|v: Value| v@)) == Some(value@);
        let fi = registry.functions()[i];
        assert(is_stdlib_function(fi));
        assert(fi.name@ == lower_str(name@));
        let j = choose|j: int| 0 <= j < registry.function_names().len()
            && registry.function_names()[j] == lower_str(name@) && *function == #[trigger] registry.functions()[j];
        let fj = registry.functions()[j];
        assert(is_stdlib_function(fj));
        assert(fj.name@ == lower_str(name@));
        assert(stdlib_function(lower_str(name@)) == Some((fi.eval, return_type@)));
        assert(fi.arity == ScalarArity::Exact(reads_args(fi.eval) as usize));
        assert(args@.len() as usize == reads_args(fi.eval) as usize);
        assert(reads_args(fi.eval) <= 1);
        assert(args@.len() == args.len());
        assert(args@.len() == reads_args(fi.eval));
    }
    let mut columns: Vec<ColumnInfo> = Vec::new();
    columns.push(ColumnInfo { name: name.to_string(), sql_type: return_type.to_string() });
    let mut row: Vec<Value> = Vec::new();
    row.push(value);
    let mut rows: Vec<Vec<Value>> = Vec::new();
    rows.push(row);
    Ok(ExecResult::Query { columns, rows })
}

/// What one statement does to the store and answers.
pub open spec fn statement_outcome<F: VfsFile>(o: TxStoreView, f: TxStoreView, file: F, st: StatementView, r: DbResult<ExecResult>) -> bool {
    match st {
        StatementView::CreateTable { name, columns } => {
            &&& write_outcome(o, f, r is Err)
            &&& !valid_name(name) || !columns_valid(columns) || has_name(o.catalog.relations, name) ==> r is Err
            &&& r is Ok ==> r == Ok::<ExecResult, DbError>(ExecResult::StatementComplete { rows_affected: 0 })
                && f.catalog == with_new_table(o.catalog, name, columns)
        },
        StatementView::Insert { table, values } => {
            &&& write_outcome(o, f, r is Err)
            &&& !has_name(o.catalog.relations, table) ==> (r matches Err(e) && e is User && f == o)
            &&& has_name(o.catalog.relations, table) ==> exists|i: int| #[trigger] first_with_name(o.catalog.relations, table, i)
                && insert_outcome(o, f, o.catalog.relations[i], values, r)
        },
        StatementView::CreateIndex { name, table, column } => {
            &&& write_outcome(o, f, r is Err)
            &&& !has_name(o.catalog.relations, table) ==> (r matches Err(e) && e is User && f == o)
            &&& has_name(o.catalog.relations, table) ==> exists|i: int| #[trigger] first_with_name(o.catalog.relations, table, i)
                && create_index_outcome(o, f, o.catalog.relations[i], column, r)
        },
        StatementView::Select { projection, table, selection } => {
            &&& f == o
            &&& !has_name(o.catalog.relations, table) ==> (r matches Err(e) && e is User)
            &&& has_name(o.catalog.relations, table) ==> exists|i: int| #[trigger] first_with_name(o.catalog.relations, table, i)
                && query_outcome(o.catalog.relations[i], projection, selection, r)
                && (!uses_index(o.catalog, o.catalog.relations[i].id, selection)
                    ==> scan_query(o.catalog, file, o.catalog.relations[i], projection, selection, r))
                && (uses_index(o.catalog, o.catalog.relations[i].id, selection) && file.modeled()
                    ==> index_query(o.catalog, file, o.catalog.relations[i], projection, selection, r))
        },
        StatementView::LoadExtension { name } => load_outcome(o, f, name, r),
        StatementView::SelectFunction { name, args } => f == o && call_outcome(name, args, r)
            && (call_ok(o.catalog.extensions, name, args) ==> r is Ok),
    }
}

/// A CREATE TABLE cannot fail over a ready store with committed catalog
/// `c`: the name and the columns are valid, the name is new, relation and
/// page ids are left, the catalog with the table fits its page, and the
/// table's first page has an offset that fits.
pub open spec fn create_table_ok(c: CatalogView, name: Seq<char>, columns: Seq<ColumnView>) -> bool {
    &&& valid_name(name)
    &&& columns_valid(columns)
    &&& !has_name(c.relations, name)
    &&& c.next_relation_id < u64::MAX
    &&& c.next_page_id < u64::MAX
    &&& catalog_fits_page(with_new_table(c, name, columns))
    &&& spec_page_offset(PageId(c.next_page_id)) + PAGE_SIZE <= usize::MAX
}

/// Statement `st` cannot fail over a ready store with committed catalog `c`
/// and data-file bytes `data`. CREATE INDEX is not covered: whether it
/// succeeds is left unstated.
pub open spec fn statement_ok(c: CatalogView, data: Seq<u8>, st: StatementView) -> bool {
    match st {
        StatementView::CreateTable { name, columns } => create_table_ok(c, name, columns),
        StatementView::Insert { table, values } => insert_stmt_ok(c, data, table, values),
        StatementView::CreateIndex { .. } => false,
        StatementView::Select { projection, table, selection } => select_ok(c, data, projection, table, selection),
        StatementView::LoadExtension { name } => load_ok(c, name),
        StatementView::SelectFunction { name, args } => call_ok(c.extensions, name, args),
    }
}

/// After statement `st` ran over committed catalog `c` and left catalog `f`,
/// data-file bytes `data` hold what it wrote: for an INSERT, the inserted
/// row (`row_inserted`).
pub open spec fn statement_stored(c: CatalogView, f: CatalogView, data: Seq<u8>, st: StatementView) -> bool {
    st matches StatementView::Insert { table, values } ==> row_inserted(c, f, data, table, values)
}

/// What a successful statement `st` filed in indexes, over committed catalog
/// `c` and data-file bytes `data`, leaving catalog `f`: an INSERT files its
/// row in every index of the table (`row_filed`, where no heap page of the
/// table is the catalog page); a CREATE INDEX files every row of the table
/// (`rows_indexed`).
pub open spec fn statement_indexed(c: CatalogView, data: Seq<u8>, f: CatalogView, st: StatementView) -> bool {
    match st {
        StatementView::Insert { table, values } => heap_off_catalog(c, table) ==> row_filed(c, f, table, values),
        StatementView::CreateIndex { name, table, column } => rows_indexed(c, data, f, table, column),
        _ => true,
    }
}

/// Execute a parsed statement against a transactional store.
pub fn execute_statement<F: VfsFile>(store: &mut TransactionalStore<F>, statement: Statement) -> (r: DbResult<ExecResult>)
    ensures
        statement_outcome(old(store)@, final(store)@, old(store).data_file(), statement@, r),
        r is Ok && old(store).data_file().modeled() && index_ready(old(store)@.catalog, old(store).data_file().contents())
            ==> statement_indexed(old(store)@.catalog, old(store).data_file().contents(), final(store)@.catalog, statement@),
        old(store).ready() && statement_ok(old(store)@.catalog, old(store).data_file().contents(), statement@)
            ==> r is Ok && statement_stored(old(store)@.catalog, final(store)@.catalog, final(store).data_file().contents(), statement@),
{
    match statement {
        Statement::CreateTable { name, columns } => {
            store.create_table_autocommit(name.as_str(), columns)?;
            Ok(ExecResult::StatementComplete { rows_affected: 0 })
        },
        Statement::Insert { table, values } => execute_insert(store, table.as_str(), &values),
        Statement::CreateIndex { name, table, column } => execute_create_index(store, name.as_str(), table.as_str(), column.as_str()),
        Statement::Select { projection, table, selection } => {
            let sel = match &selection {
                Some(s) => Some(s),
                None => None,
            };
            execute_select(store, &projection, table.as_str(), sel)
        },
        Statement::LoadExtension { name } => execute_load_extension(store, name.as_str()),
        Statement::SelectFunction { name, args } => execute_call(store, name.as_str(), &args),
    }
}

/// Execute one SQL statement, given as its tokens and the doubles that its
/// number tokens with a `.` convert to, against a transactional store.
/// Positional parameters are not supported: any is refused.
pub fn execute<F: VfsFile>(store: &mut TransactionalStore<F>, tokens: &[Token], doubles: &[Option<u64>], params: &[Value]) -> (r: DbResult<ExecResult>)
    ensures
        params@.len() > 0 ==> (r matches Err(e) && e is User && final(store)@ == old(store)@),
        params@.len() == 0 && parse_spec(tokens_view(tokens@), doubles@) is None
            ==> (r matches Err(e) && e is User && final(store)@ == old(store)@),
        params@.len() == 0 ==> (parse_spec(tokens_view(tokens@), doubles@) matches Some(st)
            ==> statement_outcome(old(store)@, final(store)@, old(store).data_file(), st, r)),
        params@.len() == 0 && old(store).ready() ==> (parse_spec(tokens_view(tokens@), doubles@) matches Some(st)
            ==> (statement_ok(old(store)@.catalog, old(store).data_file().contents(), st)
            ==> r is Ok && statement_stored(old(store)@.catalog, final(store)@.catalog, final(store).data_file().contents(), st))),
        r is Ok && old(store).data_file().modeled() && index_ready(old(store)@.catalog, old(store).data_file().contents())
            ==> (parse_spec(tokens_view(tokens@), doubles@) matches Some(st)
            ==> statement_indexed(old(store)@.catalog, old(store).data_file().contents(), final(store)@.catalog, st)),
{
    if params.len() > 0 {
        return Err(user_error("SQL parameters are not supported"));
    }
    let statement = parse_statement(tokens, doubles)?;
    execute_statement(store, statement)
}

/// A row id with a stored record among `ids` gives its row among the rows
/// stored at `ids`.
proof fn lemma_stored_rows_has(c: Seq<u8>, ids: Seq<RowId>, id: RowId)
    requires
        ids.contains(id),
        stored_record(c, id) is Some,
    ensures
        stored_rows(c, ids).contains((id, stored_record(c, id)->0)),
    decreases ids.len(),
{
    let pre = stored_rows(c, ids.drop_last());
    let all = stored_rows(c, ids);
    if ids.last() == id {
        assert(all[pre.len() as int] == (id, stored_record(c, id)->0));
    } else {
        let k = choose|k: int| 0 <= k < ids.len() && ids[k] == id;
        assert(ids.drop_last()[k] == id);
        lemma_stored_rows_has(c, ids.drop_last(), id);
        let q = choose|q: int| 0 <= q < pre.len() && pre[q] == (id, stored_record(c, id)->0);
        assert(all[q] == pre[q]);
    }
}

/// Law (index reads are complete): over a data file whose index tree is well
/// formed, the candidates that a read through the index gives (the rows
/// stored at every row id the lookup answers, as `index_candidates` says)
/// hold every row that the tree files under the predicate's key and whose
/// record is stored, with that record.
pub proof fn law_index_read_complete(c: Seq<u8>, root: u64, key: KeyView, e: EntryView)
    requires
        tree_wf(file_pages(c), root),
        tree_entries(file_pages(c), root).contains(e),
        e.key == key,
        stored_record(c, e.row_id) is Some,
    ensures
        lookup_spec(file_pages(c), root, key) is Some,
        stored_rows(c, lookup_spec(file_pages(c), root, key)->0).contains((e.row_id, stored_record(c, e.row_id)->0)),
{
    law_lookup_wf(file_pages(c), root, key);
    lemma_rows_with_key_has(tree_entries(file_pages(c), root), key, e);
    lemma_stored_rows_has(c, lookup_spec(file_pages(c), root, key)->0, e.row_id);
}
/// Law (an INSERT files its row under each index's own column): in the trace
/// that filing a new row in a table's indexes leaves (`filing_trace`, as
/// `insert_index_entries` ensures it), the index at step `k`, on column `c`
/// of the table, holds the row right after its step under the key of the
/// row's value in column `c`, found by an insert from the tree its root had
/// before the step.
pub proof fn law_insert_filing_holds(ps: Seq<Map<u64, Seq<u8>>>, ws: Seq<CatalogView>, ixs: Seq<RelationView>,
    cols: Seq<ColumnView>, vals: Seq<ValueView>, row: RowId, k: int, c: int, key: KeyView)
    requires
        filing_trace(ps, ws, ixs, cols, vals, row),
        0 <= k < ixs.len(),
        ixs[k].storage matches StorageView::BPlusTree(st) && col_pos(cols, st.column_name, 0) == Some(c),
        index_key_of(vals[c]) == Some(key),
    ensures
        row_held(ps[k + 1], key, row),
        crate::tx::index_root(ws[k], ixs[k].id) is Some,
        exists|mid: Map<u64, Seq<u8>>, split: Option<(KeyView, u64)>, t: crate::index::InsertTrace|
            #[trigger] crate::index::insert_outcome(ps[k], mid, crate::tx::index_root(ws[k], ixs[k].id)->0,
                EntryView { key, row_id: row }, split, crate::index::MAX_DEPTH as nat, t),
{
    assert(index_filing(ps[k], ws[k], ps[k + 1], ws[k + 1], ixs[k], cols, vals, row));
}

/// Law (CREATE INDEX files every stored row): in the trace that filing the
/// rows of a table scan in a new index leaves (`scan_filing_trace`, as
/// `index_existing_rows` ensures it for the table's full scan), every scanned
/// row whose value in the indexed column can be a key is held right after its
/// step under that key; none is passed over.
pub proof fn law_scan_filing_holds(ps: Seq<Map<u64, Seq<u8>>>, ws: Seq<CatalogView>, rows: Seq<(RowId, Seq<u8>)>,
    idx: u64, col: int, width: int, k: int, key: KeyView)
    requires
        scan_filing_trace(ps, ws, rows, idx, col, width),
        0 <= k < rows.len(),
        pr_row(rows[k].1) matches Some(vals) && 0 <= col < vals.len() && index_key_of(vals[col]) == Some(key),
    ensures
        row_held(ps[k + 1], key, rows[k].0),
        crate::tx::index_root(ws[k], idx) is Some,
        exists|mid: Map<u64, Seq<u8>>, split: Option<(KeyView, u64)>, t: crate::index::InsertTrace|
            #[trigger] crate::index::insert_outcome(ps[k], mid, crate::tx::index_root(ws[k], idx)->0,
                EntryView { key, row_id: rows[k].0 }, split, crate::index::MAX_DEPTH as nat, t),
{
    assert(row_filing(ps[k], ws[k], ps[k + 1], ws[k + 1], rows[k], idx, col, width));
}
/// Law (typeof names the type a value keeps): `typeof` of a non-NULL value
/// names a column type that stores the value unchanged; of NULL it is "NULL".
pub proof fn law_typeof_keeps(v: ValueView)
    ensures
        crate::extension::scalar_result(crate::extension::ScalarImpl::TypeOf, seq![v]) matches Some(ValueView::Text(t))
            && (v is Null ==> t == "NULL"@)
            && (!(v is Null) ==> coerce_spec(t, v) == Some(v)),
{
    reveal_strlit("NULL");
    reveal_strlit("INT");
    reveal_strlit("INTEGER");
    reveal_strlit("TEXT");
    reveal_strlit("DOUBLE");
    reveal_strlit("REAL");
    reveal_strlit("FLOAT");
    match v {
        ValueView::Integer(_) => {
            assert(is_integer_type("INT"@));
        },
        ValueView::Text(_) => {
            assert("TEXT"@.len() == 4 && "INT"@.len() == 3 && "INTEGER"@.len() == 7);
            assert(!is_integer_type("TEXT"@));
        },
        ValueView::Double(_) => {
            assert("DOUBLE"@.len() == 6 && "INT"@.len() == 3 && "INTEGER"@.len() == 7 && "TEXT"@.len() == 4);
            assert(!is_integer_type("DOUBLE"@));
            assert("DOUBLE"@ != "TEXT"@);
            assert(is_double_type("DOUBLE"@));
        },
        ValueView::Null => {},
    }
}
} // verus!
