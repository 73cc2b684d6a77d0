//! Lexer and parser for the SQL subset:
//!
//! ```text
//! CREATE TABLE name (column TYPE, ...)
//! INSERT INTO name VALUES (literal, ...)
//! CREATE INDEX name ON table(column)
//! SELECT * FROM name [WHERE column = literal]
//! SELECT column, ... FROM name [WHERE column = literal]
//! LOAD EXTENSION name
//! SELECT function(literal, ...)
//! ```
//!
//! The grammar is stated as spec functions over the characters of the input
//! (`lex`) and over the token sequence (`parse_spec`); the executable lexer and
//! parser are proved to compute exactly those functions.
//!
//! A decimal literal such as `9.5` denotes an IEEE-754 double. Turning its text
//! into the nearest double is floating-point work that this crate does not do:
//! the caller hands the parser, for each token position, the bit pattern that
//! the token's text converts to (or `None`), and the parser uses it.

use vstd::prelude::*;
use crate::types::{DbError, DbResult, Value, user_error};
use crate::sql::{ValueView, Projection, values_view};
use crate::catalog::{ColumnDef, ColumnView, columns_view};
use crate::codec::str_eq;
use crate::extension::{ascii_lower, lower_str, upper_str, normalize_name, ascii_uppercase};

verus! {

/// One lexical token.
#[derive(Clone, Debug, PartialEq)]
pub enum Token {
    Ident(String),
    Number(String),
    Str(String),
    Comma,
    LParen,
    RParen,
    Semicolon,
    Star,
    Eq,
    Eof,
}

/// Mathematical value of a token.
pub enum TokenView {
    Ident(Seq<char>),
    Number(Seq<char>),
    Str(Seq<char>),
    Comma,
    LParen,
    RParen,
    Semicolon,
    Star,
    Eq,
    Eof,
}

impl View for Token {
    type V = TokenView;

    open spec fn view(&self) -> TokenView {
        match self {
            Token::Ident(s) => TokenView::Ident(s@),
            Token::Number(s) => TokenView::Number(s@),
            Token::Str(s) => TokenView::Str(s@),
            Token::Comma => TokenView::Comma,
            Token::LParen => TokenView::LParen,
            Token::RParen => TokenView::RParen,
            Token::Semicolon => TokenView::Semicolon,
            Token::Star => TokenView::Star,
            Token::Eq => TokenView::Eq,
            Token::Eof => TokenView::Eof,
        }
    }
}

/// Token values of a token sequence.
pub open spec fn tokens_view(ts: Seq<Token>) -> Seq<TokenView> {
    ts.map_values(|t: Token| t@)
}

// ---------------------------------------------------------------------------
// Character classes.

/// An ASCII decimal digit.
pub open spec fn is_digit(c: char) -> bool {
    '0' <= c <= '9'
}

/// An ASCII letter.
pub open spec fn is_alpha(c: char) -> bool {
    ('a' <= c <= 'z') || ('A' <= c <= 'Z')
}

/// A character that can start an identifier.
pub open spec fn ident_start(c: char) -> bool {
    is_alpha(c) || c == '_'
}

/// A character that can continue an identifier.
pub open spec fn ident_continue(c: char) -> bool {
    is_alpha(c) || is_digit(c) || c == '_'
}

/// Whether `c` has the Unicode `White_Space` property, as `char::is_whitespace`
/// answers it. The property's table is not restated here.
pub uninterp spec fn white_space(c: char) -> bool;

/// `char::is_whitespace`: whether `c` has the Unicode `White_Space` property.
#[verifier::external_body]
fn char_is_whitespace(c: char) -> (r: bool)
    ensures
        r == white_space(c),
{
    c.is_whitespace()
}

fn is_digit_char(c: char) -> (r: bool)
    ensures
        r == is_digit(c),
{
    '0' <= c && c <= '9'
}

fn is_ident_start_char(c: char) -> (r: bool)
    ensures
        r == ident_start(c),
{
    ('a' <= c && c <= 'z') || ('A' <= c && c <= 'Z') || c == '_'
}

fn is_ident_continue_char(c: char) -> (r: bool)
    ensures
        r == ident_continue(c),
{
    is_ident_start_char(c) || is_digit_char(c)
}

/// `String::push`: appends one character.
#[verifier::external_body]
fn push_char(s: &mut String, c: char)
    ensures
        final(s)@ == old(s)@.push(c),
{
    s.push(c)
}

// ---------------------------------------------------------------------------
// The lexical grammar.

/// First position at or after `i` that is not white space.
pub open spec fn skip_ws(s: Seq<char>, i: int) -> int
    decreases s.len() - i,
{
    if i < s.len() && white_space(s[i]) { skip_ws(s, i + 1) } else { i }
}

/// First position at or after `i` that cannot continue an identifier.
pub open spec fn ident_end(s: Seq<char>, i: int) -> int
    decreases s.len() - i,
{
    if i < s.len() && ident_continue(s[i]) { ident_end(s, i + 1) } else { i }
}

/// First position at or after `i` that is neither a digit nor `.`.
pub open spec fn number_end(s: Seq<char>, i: int) -> int
    decreases s.len() - i,
{
    if i < s.len() && (is_digit(s[i]) || s[i] == '.') { number_end(s, i + 1) } else { i }
}

/// The rest of a quoted string whose body starts at `i`, with `acc` read so
/// far: `''` stands for one quote, a lone `'` ends the literal. `None` when
/// the input ends first. The position returned is just after the closing quote.
pub open spec fn string_body(s: Seq<char>, i: int, acc: Seq<char>) -> Option<(Seq<char>, int)>
    decreases s.len() - i,
{
    if i < 0 || i >= s.len() {
        None
    } else if s[i] == '\'' {
        if i + 1 < s.len() && s[i + 1] == '\'' {
            string_body(s, i + 2, acc.push('\''))
        } else {
            Some((acc, i + 1))
        }
    } else {
        string_body(s, i + 1, acc.push(s[i]))
    }
}

pub proof fn lemma_skip_ws_ge(s: Seq<char>, i: int)
    ensures
        skip_ws(s, i) >= i,
        i <= s.len() ==> skip_ws(s, i) <= s.len(),
    decreases s.len() - i,
{
    if i < s.len() && white_space(s[i]) {
        lemma_skip_ws_ge(s, i + 1);
    }
}

pub proof fn lemma_ident_end_ge(s: Seq<char>, i: int)
    ensures
        ident_end(s, i) >= i,
        i <= s.len() ==> ident_end(s, i) <= s.len(),
    decreases s.len() - i,
{
    if i < s.len() && ident_continue(s[i]) {
        lemma_ident_end_ge(s, i + 1);
    }
}

pub proof fn lemma_number_end_ge(s: Seq<char>, i: int)
    ensures
        number_end(s, i) >= i,
        i <= s.len() ==> number_end(s, i) <= s.len(),
    decreases s.len() - i,
{
    if i < s.len() && (is_digit(s[i]) || s[i] == '.') {
        lemma_number_end_ge(s, i + 1);
    }
}

pub proof fn lemma_string_body_end(s: Seq<char>, i: int, acc: Seq<char>)
    ensures
        string_body(s, i, acc) matches Some((v, e)) ==> i < e <= s.len(),
    decreases s.len() - i,
{
    if i < 0 || i >= s.len() {
    } else if s[i] == '\'' {
        if i + 1 < s.len() && s[i + 1] == '\'' {
            lemma_string_body_end(s, i + 2, acc.push('\''));
        }
    } else {
        lemma_string_body_end(s, i + 1, acc.push(s[i]));
    }
}

/// The tokens of `s` from position `i` on, after `acc`; `None` when the input
/// holds a character that starts no token, a `-` not followed by a digit, or
/// an unterminated string. The sequence always ends with `Eof`.
pub open spec fn lex(s: Seq<char>, i: int, acc: Seq<TokenView>) -> Option<Seq<TokenView>>
    decreases s.len() - i,
{
    let j = skip_ws(s, i);
    if j >= s.len() {
        Some(acc.push(TokenView::Eof))
    } else {
        proof {
            lemma_skip_ws_ge(s, i);
            lemma_ident_end_ge(s, j + 1);
            lemma_number_end_ge(s, j + 1);
            lemma_string_body_end(s, j + 1, Seq::<char>::empty());
        }
        let c = s[j];
        if c == ',' {
            lex(s, j + 1, acc.push(TokenView::Comma))
        } else if c == '(' {
            lex(s, j + 1, acc.push(TokenView::LParen))
        } else if c == ')' {
            lex(s, j + 1, acc.push(TokenView::RParen))
        } else if c == ';' {
            lex(s, j + 1, acc.push(TokenView::Semicolon))
        } else if c == '*' {
            lex(s, j + 1, acc.push(TokenView::Star))
        } else if c == '=' {
            lex(s, j + 1, acc.push(TokenView::Eq))
        } else if c == '\'' {
            match string_body(s, j + 1, Seq::<char>::empty()) {
                Some((v, e)) => lex(s, e, acc.push(TokenView::Str(v))),
                None => None,
            }
        } else if ident_start(c) {
            let e = ident_end(s, j + 1);
            lex(s, e, acc.push(TokenView::Ident(s.subrange(j, e))))
        } else if is_digit(c) || c == '-' {
            if c == '-' && !(j + 1 < s.len() && is_digit(s[j + 1])) {
                None
            } else {
                let e = number_end(s, j + 1);
                lex(s, e, acc.push(TokenView::Number(s.subrange(j, e))))
            }
        } else {
            None
        }
    }
}

/// Every token sequence the lexer produces keeps the tokens read before and
/// ends with exactly one `Eof`, at the end.
pub proof fn lemma_lex_ends_with_eof(s: Seq<char>, i: int, acc: Seq<TokenView>)
    ensures
        lex(s, i, acc) matches Some(ts) ==> {
            &&& ts.len() > acc.len()
            &&& ts.subrange(0, acc.len() as int) == acc
            &&& ts.last() == TokenView::Eof
            &&& forall|k: int| 0 <= k < ts.len() - 1 && (forall|m: int| 0 <= m < acc.len() ==> acc[m] != TokenView::Eof)
                ==> #[trigger] ts[k] != TokenView::Eof
        },
    decreases s.len() - i,
{
    let j = skip_ws(s, i);
    lemma_skip_ws_ge(s, i);
    if j >= s.len() {
        if let Some(ts) = lex(s, i, acc) {
            assert(ts.subrange(0, acc.len() as int) =~= acc);
        }
    } else {
        lemma_ident_end_ge(s, j + 1);
        lemma_number_end_ge(s, j + 1);
        lemma_string_body_end(s, j + 1, Seq::<char>::empty());
        let c = s[j];
        let step: Option<(TokenView, int)> = if c == ',' {
            Some((TokenView::Comma, j + 1))
        } else if c == '(' {
            Some((TokenView::LParen, j + 1))
        } else if c == ')' {
            Some((TokenView::RParen, j + 1))
        } else if c == ';' {
            Some((TokenView::Semicolon, j + 1))
        } else if c == '*' {
            Some((TokenView::Star, j + 1))
        } else if c == '=' {
            Some((TokenView::Eq, j + 1))
        } else if c == '\'' {
            match string_body(s, j + 1, Seq::<char>::empty()) {
                Some((v, e)) => Some((TokenView::Str(v), e)),
                None => None,
            }
        } else if ident_start(c) {
            let e = ident_end(s, j + 1);
            Some((TokenView::Ident(s.subrange(j, e)), e))
        } else if is_digit(c) || c == '-' {
            if c == '-' && !(j + 1 < s.len() && is_digit(s[j + 1])) {
                None
            } else {
                let e = number_end(s, j + 1);
                Some((TokenView::Number(s.subrange(j, e)), e))
            }
        } else {
            None
        };
        if let Some((t, e)) = step {
            assert(lex(s, i, acc) == lex(s, e, acc.push(t)));
            lemma_lex_ends_with_eof(s, e, acc.push(t));
            if let Some(ts) = lex(s, i, acc) {
                let pre = ts.subrange(0, acc.len() as int + 1);
                assert(pre == acc.push(t));
                assert(ts.subrange(0, acc.len() as int) =~= pre.subrange(0, acc.len() as int));
                assert(pre[acc.len() as int] == ts[acc.len() as int]);
                assert(ts[acc.len() as int] == t);
                assert forall|k: int| 0 <= k < ts.len() - 1 && (forall|m: int| 0 <= m < acc.len() ==> acc[m] != TokenView::Eof)
                    implies #[trigger] ts[k] != TokenView::Eof by {
                    if k < acc.len() {
                        assert(pre[k] == ts[k]);
                        assert(acc.push(t)[k] == acc[k]);
                    } else if k > acc.len() {
                        assert(forall|m: int| 0 <= m < acc.push(t).len() ==> acc.push(t)[m] != TokenView::Eof);
                    }
                }
            }
        } else {
            assert(lex(s, i, acc) is None);
        }
    }
}

/// The tokens of a whole SQL text.
pub open spec fn lex_all(s: Seq<char>) -> Option<Seq<TokenView>> {
    lex(s, 0, Seq::<TokenView>::empty())
}

// ---------------------------------------------------------------------------
// The lexer.

fn chars_of(s: &str) -> (r: Vec<char>)
    ensures
        r@ == s@,
{
    let mut out: Vec<char> = Vec::new();
    for c in it: s.chars()
        invariant
            out@ == it.seq().take(it.index() as int),
    {
        out.push(c);
    }
    out
}

fn skip_whitespace(s: &Vec<char>, i: usize) -> (j: usize)
    requires
        i <= s@.len(),
    ensures
        j == skip_ws(s@, i as int),
        i <= j <= s@.len(),
{
    let mut k = i;
    while k < s.len() && char_is_whitespace(s[k])
        invariant
            i <= k <= s@.len(),
            skip_ws(s@, i as int) == skip_ws(s@, k as int),
        decreases s@.len() - k,
    {
        k = k + 1;
    }
    k
}

/// Reads an identifier whose first character is at `j`.
fn read_identifier(s: &Vec<char>, j: usize) -> (r: (String, usize))
    requires
        j < s@.len(),
        ident_start(s@[j as int]),
    ensures
        r.1 == ident_end(s@, j + 1),
        j < r.1 <= s@.len(),
        r.0@ == s@.subrange(j as int, r.1 as int),
{
    let mut ident = String::new();
    push_char(&mut ident, s[j]);
    let n = s.len();
    let mut k = j + 1;
    proof {
        assert(ident@ =~= s@.subrange(j as int, k as int));
    }
    while k < s.len() && is_ident_continue_char(s[k])
        invariant
            j < k <= s@.len(),
            ident_end(s@, j + 1) == ident_end(s@, k as int),
            ident@ == s@.subrange(j as int, k as int),
        decreases s@.len() - k,
    {
        push_char(&mut ident, s[k]);
        k = k + 1;
        proof {
            assert(ident@ =~= s@.subrange(j as int, k as int));
        }
    }
    (ident, k)
}

/// Reads a number whose first character (a digit, or `-` before a digit) is at `j`.
fn read_number(s: &Vec<char>, j: usize) -> (r: (String, usize))
    requires
        j < s@.len(),
        is_digit(s@[j as int]) || (s@[j as int] == '-' && j + 1 < s@.len() && is_digit(s@[j + 1])),
    ensures
        r.1 == number_end(s@, j + 1),
        j < r.1 <= s@.len(),
        r.0@ == s@.subrange(j as int, r.1 as int),
{
    let mut text = String::new();
    push_char(&mut text, s[j]);
    let n = s.len();
    let mut k = j + 1;
    proof {
        assert(text@ =~= s@.subrange(j as int, k as int));
    }
    while k < s.len() && (is_digit_char(s[k]) || s[k] == '.')
        invariant
            j < k <= s@.len(),
            number_end(s@, j + 1) == number_end(s@, k as int),
            text@ == s@.subrange(j as int, k as int),
        decreases s@.len() - k,
    {
        push_char(&mut text, s[k]);
        k = k + 1;
        proof {
            assert(text@ =~= s@.subrange(j as int, k as int));
        }
    }
    (text, k)
}

/// Reads the body of a quoted string that starts at `j`, just after the
/// opening quote.
fn read_string(s: &Vec<char>, j: usize) -> (r: Option<(String, usize)>)
    requires
        j <= s@.len(),
    ensures
        match string_body(s@, j as int, Seq::<char>::empty()) {
            Some((v, e)) => r matches Some(p) && p.0@ == v && p.1 == e,
            None => r is None,
        },
{
    let mut value = String::new();
    let mut k = j;
    while k < s.len()
        invariant
            j <= k <= s@.len(),
            string_body(s@, j as int, Seq::<char>::empty()) == string_body(s@, k as int, value@),
        decreases s@.len() - k,
    {
        if s[k] == '\'' {
            if k + 1 < s.len() && s[k + 1] == '\'' {
                push_char(&mut value, '\'');
                k = k + 2;
            } else {
                return Some((value, k + 1));
            }
        } else {
            push_char(&mut value, s[k]);
            k = k + 1;
        }
    }
    None
}

/// Split SQL text into tokens; the last token is always `Eof`.
pub fn tokenize(sql: &str) -> (r: DbResult<Vec<Token>>)
    ensures
        match lex_all(sql@) {
            Some(ts) => r matches Ok(tokens) && tokens_view(tokens@) == ts,
            None => r matches Err(e) && e is User,
        },
{
    let s = chars_of(sql);
    let mut tokens: Vec<Token> = Vec::new();
    let mut i: usize = 0;
    proof {
        assert(tokens_view(tokens@) =~= Seq::<TokenView>::empty());
    }
    loop
        invariant
            i <= s@.len(),
            s@ == sql@,
            lex_all(sql@) == lex(s@, i as int, tokens_view(tokens@)),
        decreases s@.len() - i,
    {
        let ghost before = tokens_view(tokens@);
        let j = skip_whitespace(&s, i);
        if j >= s.len() {
            tokens.push(Token::Eof);
            proof {
                assert(tokens_view(tokens@) =~= before.push(TokenView::Eof));
            }
            return Ok(tokens);
        }
        let c = s[j];
        let token: Token;
        let next: usize;
        if c == ',' {
            token = Token::Comma;
            next = j + 1;
        } else if c == '(' {
            token = Token::LParen;
            next = j + 1;
        } else if c == ')' {
            token = Token::RParen;
            next = j + 1;
        } else if c == ';' {
            token = Token::Semicolon;
            next = j + 1;
        } else if c == '*' {
            token = Token::Star;
            next = j + 1;
        } else if c == '=' {
            token = Token::Eq;
            next = j + 1;
        } else if c == '\'' {
            match read_string(&s, j + 1) {
                Some((value, e)) => {
                    proof {
                        lemma_string_body_end(s@, j + 1, Seq::<char>::empty());
                    }
                    token = Token::Str(value);
                    next = e;
                },
                None => {
                    return Err(user_error("unterminated string literal"));
                },
            }
        } else if is_ident_start_char(c) {
            let (ident, e) = read_identifier(&s, j);
            token = Token::Ident(ident);
            next = e;
        } else if is_digit_char(c) || c == '-' {
            if c == '-' && !(j + 1 < s.len() && is_digit_char(s[j + 1])) {
                return Err(user_error("expected digit after '-'"));
            }
            let (text, e) = read_number(&s, j);
            token = Token::Number(text);
            next = e;
        } else {
            return Err(user_error("unexpected character in SQL"));
        }
        proof {
            assert(lex(s@, i as int, before) == lex(s@, next as int, before.push(token@)));
        }
        tokens.push(token);
        proof {
            assert(tokens_view(tokens@) =~= before.push(token@));
        }
        i = next;
    }
}

// ---------------------------------------------------------------------------
// Statements.

/// Parsed statement of the SQL subset.
#[derive(Clone, Debug, PartialEq)]
pub enum Statement {
    /// `CREATE TABLE name (column TYPE, ...)`.
    CreateTable { name: String, columns: Vec<ColumnDef> },
    /// `INSERT INTO name VALUES (...)`, values in table-column order.
    Insert { table: String, values: Vec<Value> },
    /// `CREATE INDEX name ON table(column)`.
    CreateIndex { name: String, table: String, column: String },
    /// `SELECT ... FROM name [WHERE column = literal]`.
    Select { projection: Projection, table: String, selection: Option<Selection> },
    /// `LOAD EXTENSION name`.
    LoadExtension { name: String },
    /// `SELECT function(literal, ...)`.
    SelectFunction { name: String, args: Vec<Value> },
}

/// Equality predicate of a SELECT.
#[derive(Clone, Debug, PartialEq)]
pub struct Selection {
    /// Predicate column.
    pub column: String,
    /// Literal compared with `=`.
    pub value: Value,
}

/// Mathematical value of a projection.
pub enum ProjectionView {
    All,
    Columns(Seq<Seq<char>>),
}

/// Mathematical value of a statement.
pub enum StatementView {
    CreateTable { name: Seq<char>, columns: Seq<ColumnView> },
    Insert { table: Seq<char>, values: Seq<ValueView> },
    CreateIndex { name: Seq<char>, table: Seq<char>, column: Seq<char> },
    Select { projection: ProjectionView, table: Seq<char>, selection: Option<(Seq<char>, ValueView)> },
    LoadExtension { name: Seq<char> },
    SelectFunction { name: Seq<char>, args: Seq<ValueView> },
}

impl View for Projection {
    type V = ProjectionView;

    open spec fn view(&self) -> ProjectionView {
        match self {
            Projection::All => ProjectionView::All,
            Projection::Columns(names) => ProjectionView::Columns(names_view(names@)),
        }
    }
}

impl View for Statement {
    type V = StatementView;

    open spec fn view(&self) -> StatementView {
        match self {
            Statement::CreateTable { name, columns } => StatementView::CreateTable {
                name: name@,
                columns: columns@.map_values(|c: ColumnDef| c@),
            },
            Statement::Insert { table, values } => StatementView::Insert {
                table: table@,
                values: values@.map_values(|v: Value| v@),
            },
            Statement::CreateIndex { name, table, column } => StatementView::CreateIndex {
                name: name@,
                table: table@,
                column: column@,
            },
            Statement::Select { projection, table, selection } => StatementView::Select {
                projection: projection@,
                table: table@,
                selection: match selection {
                    Some(sel) => Some((sel.column@, sel.value@)),
                    None => None,
                },
            },
            Statement::LoadExtension { name } => StatementView::LoadExtension { name: name@ },
            Statement::SelectFunction { name, args } => StatementView::SelectFunction {
                name: name@,
                args: values_view(args@),
            },
        }
    }
}

// ---------------------------------------------------------------------------
// The grammar over tokens. Positions past the end read as `Eof`.

/// The token at position `p`; `Eof` past either end.
pub open spec fn tok(t: Seq<TokenView>, p: int) -> TokenView {
    if 0 <= p < t.len() { t[p] } else { TokenView::Eof }
}

/// An identifier token equal to `kw` up to ASCII case.
pub open spec fn is_keyword(x: TokenView, kw: Seq<char>) -> bool {
    x matches TokenView::Ident(v) && lower_str(v) == lower_str(kw)
}

/// The double bits given for the token at `p`, if any.
pub open spec fn double_at(d: Seq<Option<u64>>, p: int) -> Option<u64> {
    if 0 <= p < d.len() { d[p] } else { None }
}

/// The value of a string of decimal digits.
pub open spec fn digits_value(v: Seq<char>) -> int
    decreases v.len(),
{
    if v.len() == 0 { 0 } else { digits_value(v.drop_last()) * 10 + (v.last() as int - '0' as int) }
}

/// The digits of an integer literal, after an optional sign.
pub open spec fn int_body(v: Seq<char>) -> Seq<char> {
    if v.len() > 0 && (v[0] == '-' || v[0] == '+') { v.drop_first() } else { v }
}

/// The value of an integer literal, as `i64::from_str` reads it: an optional
/// sign, then one or more decimal digits, in range.
pub open spec fn int_literal(v: Seq<char>) -> Option<i64> {
    let neg = v.len() > 0 && v[0] == '-';
    let body = int_body(v);
    if body.len() == 0 || !(forall|i: int| 0 <= i < body.len() ==> is_digit(#[trigger] body[i])) {
        None
    } else {
        let x = if neg { -digits_value(body) } else { digits_value(body) };
        if i64::MIN <= x <= i64::MAX { Some(x as i64) } else { None }
    }
}

/// The literal at `p`: `NULL` in any case, a string, or a number. A number
/// with a `.` is the double whose bits `d` gives for that position.
pub open spec fn literal_at(t: Seq<TokenView>, p: int, d: Seq<Option<u64>>) -> Option<ValueView> {
    match tok(t, p) {
        TokenView::Ident(v) => if lower_str(v) == lower_str("NULL"@) { Some(ValueView::Null) } else { None },
        TokenView::Str(v) => Some(ValueView::Text(v)),
        TokenView::Number(v) => if v.contains('.') {
            match double_at(d, p) {
                Some(bits) => Some(ValueView::Double(bits)),
                None => None,
            }
        } else {
            match int_literal(v) {
                Some(x) => Some(ValueView::Integer(x)),
                None => None,
            }
        },
        _ => None,
    }
}

/// A column type name, upper-cased, when it is one the engine knows.
pub open spec fn column_type(v: Seq<char>) -> Option<Seq<char>> {
    let u = upper_str(v);
    if u == "INT"@ || u == "INTEGER"@ || u == "TEXT"@ || u == "DOUBLE"@ || u == "REAL"@ || u == "FLOAT"@ {
        Some(u)
    } else {
        None
    }
}

/// `name TYPE, ...` from `p`, after the columns `acc`; the position after it.
pub open spec fn column_list(t: Seq<TokenView>, p: int, acc: Seq<ColumnView>) -> Option<(Seq<ColumnView>, int)>
    decreases t.len() - p,
{
    match (tok(t, p), tok(t, p + 1)) {
        (TokenView::Ident(n), TokenView::Ident(ty)) => match column_type(ty) {
            Some(u) => {
                let acc2 = acc.push(ColumnView { name: lower_str(n), sql_type: u });
                if tok(t, p + 2) is Comma { column_list(t, p + 3, acc2) } else { Some((acc2, p + 2)) }
            },
            None => None,
        },
        _ => None,
    }
}

/// `name, ...` from `p`, after the names `acc`; the position after it.
pub open spec fn name_list(t: Seq<TokenView>, p: int, acc: Seq<Seq<char>>) -> Option<(Seq<Seq<char>>, int)>
    decreases t.len() - p,
{
    match tok(t, p) {
        TokenView::Ident(n) => {
            let acc2 = acc.push(lower_str(n));
            if tok(t, p + 1) is Comma { name_list(t, p + 2, acc2) } else { Some((acc2, p + 1)) }
        },
        _ => None,
    }
}

/// `literal, ...)` from `p`, after the values `acc`; the position after the `)`.
pub open spec fn value_list(t: Seq<TokenView>, p: int, d: Seq<Option<u64>>, acc: Seq<ValueView>) -> Option<(Seq<ValueView>, int)>
    decreases t.len() - p,
{
    match literal_at(t, p, d) {
        Some(v) => {
            let acc2 = acc.push(v);
            if tok(t, p + 1) is Comma {
                value_list(t, p + 2, d, acc2)
            } else if tok(t, p + 1) is RParen {
                Some((acc2, p + 2))
            } else {
                None
            }
        },
        None => None,
    }
}

/// `name (column TYPE, ...)` from `p`.
pub open spec fn create_table_spec(t: Seq<TokenView>, p: int) -> Option<(StatementView, int)> {
    match tok(t, p) {
        TokenView::Ident(n) => if tok(t, p + 1) is LParen {
            match column_list(t, p + 2, Seq::empty()) {
                Some((cols, q)) => if tok(t, q) is RParen {
                    Some((StatementView::CreateTable { name: lower_str(n), columns: cols }, q + 1))
                } else {
                    None
                },
                None => None,
            }
        } else {
            None
        },
        _ => None,
    }
}

/// `name ON table(column)` from `p`.
pub open spec fn create_index_spec(t: Seq<TokenView>, p: int) -> Option<(StatementView, int)> {
    match (tok(t, p), tok(t, p + 2), tok(t, p + 4)) {
        (TokenView::Ident(n), TokenView::Ident(tb), TokenView::Ident(c)) => {
            if is_keyword(tok(t, p + 1), "ON"@) && tok(t, p + 3) is LParen && tok(t, p + 5) is RParen {
                Some((StatementView::CreateIndex { name: lower_str(n), table: lower_str(tb), column: lower_str(c) }, p + 6))
            } else {
                None
            }
        },
        _ => None,
    }
}

/// `INTO name VALUES (literal, ...)` from `p`.
pub open spec fn insert_spec(t: Seq<TokenView>, p: int, d: Seq<Option<u64>>) -> Option<(StatementView, int)> {
    match tok(t, p + 1) {
        TokenView::Ident(tb) => {
            if is_keyword(tok(t, p), "INTO"@) && is_keyword(tok(t, p + 2), "VALUES"@) && tok(t, p + 3) is LParen {
                if tok(t, p + 4) is RParen {
                    Some((StatementView::Insert { table: lower_str(tb), values: Seq::empty() }, p + 5))
                } else {
                    match value_list(t, p + 4, d, Seq::empty()) {
                        Some((vals, q)) => Some((StatementView::Insert { table: lower_str(tb), values: vals }, q)),
                        None => None,
                    }
                }
            } else {
                None
            }
        },
        _ => None,
    }
}

/// `*` or a column list from `p`.
pub open spec fn projection_spec(t: Seq<TokenView>, p: int) -> Option<(ProjectionView, int)> {
    if tok(t, p) is Star {
        Some((ProjectionView::All, p + 1))
    } else {
        match name_list(t, p, Seq::empty()) {
            Some((names, q)) => Some((ProjectionView::Columns(names), q)),
            None => None,
        }
    }
}

/// `projection FROM name [WHERE column = literal]` from `p`.
pub open spec fn select_spec(t: Seq<TokenView>, p: int, d: Seq<Option<u64>>) -> Option<(StatementView, int)> {
    match projection_spec(t, p) {
        Some((proj, q)) => match tok(t, q + 1) {
            TokenView::Ident(tb) => if is_keyword(tok(t, q), "FROM"@) {
                let r = q + 2;
                if is_keyword(tok(t, r), "WHERE"@) {
                    match (tok(t, r + 1), literal_at(t, r + 3, d)) {
                        (TokenView::Ident(c), Some(v)) => if tok(t, r + 2) is Eq {
                            Some((StatementView::Select { projection: proj, table: lower_str(tb), selection: Some((lower_str(c), v)) }, r + 4))
                        } else {
                            None
                        },
                        _ => None,
                    }
                } else {
                    Some((StatementView::Select { projection: proj, table: lower_str(tb), selection: None }, r))
                }
            } else {
                None
            },
            _ => None,
        },
        None => None,
    }
}

/// `EXTENSION name` from `p`.
pub open spec fn load_spec(t: Seq<TokenView>, p: int) -> Option<(StatementView, int)> {
    match tok(t, p + 1) {
        TokenView::Ident(n) => if is_keyword(tok(t, p), "EXTENSION"@) {
            Some((StatementView::LoadExtension { name: lower_str(n) }, p + 2))
        } else {
            None
        },
        _ => None,
    }
}

/// `SELECT f(...)`: a call of a scalar function on literals.
pub open spec fn call_spec(t: Seq<TokenView>, p: int, d: Seq<Option<u64>>) -> Option<(StatementView, int)> {
    match tok(t, p) {
        TokenView::Ident(f) => if tok(t, p + 2) is RParen {
            Some((StatementView::SelectFunction { name: lower_str(f), args: Seq::empty() }, p + 3))
        } else {
            match value_list(t, p + 2, d, Seq::empty()) {
                Some((vals, q)) => Some((StatementView::SelectFunction { name: lower_str(f), args: vals }, q)),
                None => None,
            }
        },
        _ => None,
    }
}

/// One statement from the start of the tokens, and the position after it.
pub open spec fn statement_spec(t: Seq<TokenView>, d: Seq<Option<u64>>) -> Option<(StatementView, int)> {
    if is_keyword(tok(t, 0), "CREATE"@) {
        if is_keyword(tok(t, 1), "TABLE"@) {
            create_table_spec(t, 2)
        } else if is_keyword(tok(t, 1), "INDEX"@) {
            create_index_spec(t, 2)
        } else {
            None
        }
    } else if is_keyword(tok(t, 0), "INSERT"@) {
        insert_spec(t, 1, d)
    } else if is_keyword(tok(t, 0), "SELECT"@) {
        if tok(t, 1) is Ident && tok(t, 2) is LParen {
            call_spec(t, 1, d)
        } else {
            select_spec(t, 1, d)
        }
    } else if is_keyword(tok(t, 0), "LOAD"@) {
        load_spec(t, 1)
    } else {
        None
    }
}

/// The first position at or after `p` that is not a semicolon.
pub open spec fn skip_semicolons(t: Seq<TokenView>, p: int) -> int
    decreases t.len() - p,
{
    if tok(t, p) is Semicolon { skip_semicolons(t, p + 1) } else { p }
}

/// The statement that a token sequence spells, followed by any number of
/// semicolons and the end of input.
pub open spec fn parse_spec(t: Seq<TokenView>, d: Seq<Option<u64>>) -> Option<StatementView> {
    match statement_spec(t, d) {
        Some((st, q)) => if tok(t, skip_semicolons(t, q)) is Eof { Some(st) } else { None },
        None => None,
    }
}

// ---------------------------------------------------------------------------
// The parser.

enum Punct {
    Comma,
    LParen,
    RParen,
    Semicolon,
    Star,
    Eq,
    Eof,
}

spec fn punct_view(k: Punct) -> TokenView {
    match k {
        Punct::Comma => TokenView::Comma,
        Punct::LParen => TokenView::LParen,
        Punct::RParen => TokenView::RParen,
        Punct::Semicolon => TokenView::Semicolon,
        Punct::Star => TokenView::Star,
        Punct::Eq => TokenView::Eq,
        Punct::Eof => TokenView::Eof,
    }
}

fn at_punct(t: &[Token], p: usize, k: Punct) -> (r: bool)
    ensures
        r == (tok(tokens_view(t@), p as int) == punct_view(k)),
        r && !(k is Eof) ==> p < t@.len(),
{
    if p < t.len() {
        let x = &t[p];
        match k {
            Punct::Comma => matches!(x, Token::Comma),
            Punct::LParen => matches!(x, Token::LParen),
            Punct::RParen => matches!(x, Token::RParen),
            Punct::Semicolon => matches!(x, Token::Semicolon),
            Punct::Star => matches!(x, Token::Star),
            Punct::Eq => matches!(x, Token::Eq),
            Punct::Eof => matches!(x, Token::Eof),
        }
    } else {
        matches!(k, Punct::Eof)
    }
}

fn ident_at(t: &[Token], p: usize) -> (r: Option<String>)
    ensures
        match tok(tokens_view(t@), p as int) {
            TokenView::Ident(v) => r matches Some(s) && s@ == v && p < t@.len(),
            _ => r is None,
        },
{
    if p < t.len() {
        match &t[p] {
            Token::Ident(v) => Some(v.clone()),
            _ => None,
        }
    } else {
        None
    }
}

/// `str::eq_ignore_ascii_case`: whether the two strings are equal once
/// `A`..`Z` are mapped to `a`..`z` in both.
#[verifier::external_body]
fn eq_ignore_case(a: &str, b: &str) -> (r: bool)
    ensures
        r == (lower_str(a@) == lower_str(b@)),
{
    a.eq_ignore_ascii_case(b)
}

fn keyword_at(t: &[Token], p: usize, kw: &str) -> (r: bool)
    ensures
        r == is_keyword(tok(tokens_view(t@), p as int), kw@),
        r ==> p < t@.len(),
{
    if p < t.len() {
        match &t[p] {
            Token::Ident(v) => eq_ignore_case(v.as_str(), kw),
            _ => false,
        }
    } else {
        false
    }
}

fn contains_char(s: &str, c: char) -> (r: bool)
    ensures
        r == s@.contains(c),
{
    let v = chars_of(s);
    let mut i: usize = 0;
    while i < v.len()
        invariant
            i <= v@.len(),
            v@ == s@,
            forall|j: int| 0 <= j < i ==> v@[j] != c,
        decreases v@.len() - i,
    {
        if v[i] == c {
            return true;
        }
        i = i + 1;
    }
    false
}

proof fn lemma_digits_step(v: Seq<char>, start: int, k: int)
    requires
        0 <= start <= k < v.len(),
    ensures
        digits_value(v.subrange(start, k + 1))
            == digits_value(v.subrange(start, k)) * 10 + (v[k] as int - '0' as int),
{
    assert(v.subrange(start, k + 1).drop_last() =~= v.subrange(start, k));
}

/// `i64::from_str` on the text of a number token.
fn parse_int_literal(text: &str) -> (r: Option<i64>)
    ensures
        r == int_literal(text@),
{
    let c = chars_of(text);
    let n = c.len();
    let neg = n > 0 && c[0] == '-';
    let start: usize = if n > 0 && (c[0] == '-' || c[0] == '+') { 1 } else { 0 };
    let ghost body = int_body(text@);
    proof {
        assert(body =~= c@.subrange(start as int, n as int));
    }
    if start == n {
        return None;
    }
    let cap: u128 = 0x1_0000_0000_0000_0000;
    let mut acc: u128 = 0;
    let mut k = start;
    proof {
        assert(c@.subrange(start as int, k as int) =~= Seq::<char>::empty());
    }
    while k < n
        invariant
            start <= k <= n,
            n == c@.len(),
            c@ == text@,
            body == c@.subrange(start as int, n as int),
            body == int_body(text@),
            neg == (text@.len() > 0 && text@[0] == '-'),
            cap == 0x1_0000_0000_0000_0000u128,
            forall|i: int| start <= i < k ==> is_digit(#[trigger] c@[i]),
            digits_value(c@.subrange(start as int, k as int)) >= 0,
            digits_value(c@.subrange(start as int, k as int)) <= cap ==> acc == digits_value(c@.subrange(start as int, k as int)),
            digits_value(c@.subrange(start as int, k as int)) > cap ==> acc == cap,
        decreases n - k,
    {
        let ch = c[k];
        if !is_digit_char(ch) {
            proof {
                assert(body.len() == n - start);
                assert(body[k - start] == ch);
                assert(!is_digit(body[k - start]));
                assert(!(forall|i: int| 0 <= i < body.len() ==> is_digit(#[trigger] body[i])));

            }
            return None;
        }
        let dgt = ((ch as u32) - 48) as u128;
        proof {
            lemma_digits_step(c@, start as int, k as int);
        }
        acc = acc * 10 + dgt;
        if acc > cap {
            acc = cap;
        }
        k = k + 1;
    }
    proof {
        assert(c@.subrange(start as int, n as int) =~= body);
        assert forall|i: int| 0 <= i < body.len() implies is_digit(#[trigger] body[i]) by {
            assert(body[i] == c@[start + i]);
        }
    }
    if neg {
        if acc < 0x8000_0000_0000_0000u128 {
            let m = acc as i64;
            Some(-m)
        } else if acc == 0x8000_0000_0000_0000u128 {
            Some(i64::MIN)
        } else {
            None
        }
    } else {
        if acc <= 0x7fff_ffff_ffff_ffffu128 {
            Some(acc as i64)
        } else {
            None
        }
    }
}

fn literal(t: &[Token], p: usize, d: &[Option<u64>]) -> (r: DbResult<Value>)
    ensures
        match literal_at(tokens_view(t@), p as int, d@) {
            Some(v) => r matches Ok(x) && x@ == v && p < t@.len(),
            None => r matches Err(e) && e is User,
        },
{
    if p >= t.len() {
        return Err(user_error("expected literal value"));
    }
    match &t[p] {
        Token::Ident(v) => {
            if eq_ignore_case(v.as_str(), "NULL") {
                Ok(Value::Null)
            } else {
                Err(user_error("expected literal value"))
            }
        },
        Token::Str(v) => Ok(Value::Text(v.clone())),
        Token::Number(v) => {
            if contains_char(v.as_str(), '.') {
                let bits = if p < d.len() { d[p] } else { None };
                match bits {
                    Some(b) => Ok(Value::Double(b)),
                    None => Err(user_error("invalid double literal")),
                }
            } else {
                match parse_int_literal(v.as_str()) {
                    Some(x) => Ok(Value::Integer(x)),
                    None => Err(user_error("invalid integer literal")),
                }
            }
        },
        _ => Err(user_error("expected literal value")),
    }
}

fn normalize_column_type(v: &str) -> (r: Option<String>)
    ensures
        match column_type(v@) {
            Some(u) => r matches Some(s) && s@ == u,
            None => r is None,
        },
{
    let u = ascii_uppercase(v);
    let s = u.as_str();
    if str_eq(s, "INT") || str_eq(s, "INTEGER") || str_eq(s, "TEXT") || str_eq(s, "DOUBLE")
        || str_eq(s, "REAL") || str_eq(s, "FLOAT") {
        Some(u)
    } else {
        None
    }
}

/// String values of a list of names.
pub open spec fn names_view(ns: Seq<String>) -> Seq<Seq<char>> {
    ns.map_values(|n: String| n@)
}

fn parse_columns(t: &[Token], p: usize) -> (r: DbResult<(Vec<ColumnDef>, usize)>)
    requires
        p <= t@.len(),
    ensures
        match column_list(tokens_view(t@), p as int, Seq::empty()) {
            Some((cols, q)) => r matches Ok(x) && columns_view(x.0@) == cols && x.1 == q && q <= t@.len(),
            None => r matches Err(e) && e is User,
        },
{
    let n = t.len();
    let ghost tv = tokens_view(t@);
    let mut cols: Vec<ColumnDef> = Vec::new();
    let mut q = p;
    proof {
        assert(columns_view(cols@) =~= Seq::<ColumnView>::empty());
    }
    loop
        invariant
            q <= t@.len(),
            tv == tokens_view(t@),
            n == t@.len(),
            column_list(tv, p as int, Seq::empty()) == column_list(tv, q as int, columns_view(cols@)),
        decreases t@.len() - q,
    {
        let name = match ident_at(t, q) {
            Some(n) => n,
            None => return Err(user_error("expected column name")),
        };
        let ty = match ident_at(t, q + 1) {
            Some(n) => n,
            None => return Err(user_error("expected column type")),
        };
        let sql_type = match normalize_column_type(ty.as_str()) {
            Some(u) => u,
            None => return Err(user_error("unsupported SQL type")),
        };
        let lowered = normalize_name(name.as_str());
        let ghost before = columns_view(cols@);
        let col = ColumnDef::new(lowered.as_str(), sql_type.as_str());
        cols.push(col);
        proof {
            assert(columns_view(cols@) =~= before.push(col@));
        }
        if at_punct(t, q + 2, Punct::Comma) {
            q = q + 3;
        } else {
            return Ok((cols, q + 2));
        }
    }
}

fn parse_names(t: &[Token], p: usize) -> (r: DbResult<(Vec<String>, usize)>)
    requires
        p <= t@.len(),
    ensures
        match name_list(tokens_view(t@), p as int, Seq::empty()) {
            Some((ns, q)) => r matches Ok(x) && names_view(x.0@) == ns && x.1 == q && q <= t@.len(),
            None => r matches Err(e) && e is User,
        },
{
    let n = t.len();
    let ghost tv = tokens_view(t@);
    let mut names: Vec<String> = Vec::new();
    let mut q = p;
    proof {
        assert(names_view(names@) =~= Seq::<Seq<char>>::empty());
    }
    loop
        invariant
            q <= t@.len(),
            tv == tokens_view(t@),
            n == t@.len(),
            name_list(tv, p as int, Seq::empty()) == name_list(tv, q as int, names_view(names@)),
        decreases t@.len() - q,
    {
        let name = match ident_at(t, q) {
            Some(n) => n,
            None => return Err(user_error("expected selected column")),
        };
        let lowered = normalize_name(name.as_str());
        let ghost before = names_view(names@);
        let ghost lv = lowered@;
        names.push(lowered);
        proof {
            assert(names_view(names@) =~= before.push(lv));
        }
        if at_punct(t, q + 1, Punct::Comma) {
            q = q + 2;
        } else {
            return Ok((names, q + 1));
        }
    }
}

fn parse_values(t: &[Token], p: usize, d: &[Option<u64>]) -> (r: DbResult<(Vec<Value>, usize)>)
    requires
        p <= t@.len(),
    ensures
        match value_list(tokens_view(t@), p as int, d@, Seq::empty()) {
            Some((vs, q)) => r matches Ok(x) && values_view(x.0@) == vs && x.1 == q && q <= t@.len(),
            None => r matches Err(e) && e is User,
        },
{
    let n = t.len();
    let ghost tv = tokens_view(t@);
    let mut values: Vec<Value> = Vec::new();
    let mut q = p;
    proof {
        assert(values_view(values@) =~= Seq::<ValueView>::empty());
    }
    loop
        invariant
            q <= t@.len(),
            tv == tokens_view(t@),
            n == t@.len(),
            value_list(tv, p as int, d@, Seq::empty()) == value_list(tv, q as int, d@, values_view(values@)),
        decreases t@.len() - q,
    {
        let v = literal(t, q, d)?;
        let ghost before = values_view(values@);
        let ghost vv = v@;
        values.push(v);
        proof {
            assert(values_view(values@) =~= before.push(vv));
        }
        if at_punct(t, q + 1, Punct::Comma) {
            q = q + 2;
        } else if at_punct(t, q + 1, Punct::RParen) {
            return Ok((values, q + 2));
        } else {
            return Err(user_error("expected ')' after VALUES list"));
        }
    }
}

/// A parser step's result matches its grammar function, ending inside the tokens.
pub open spec fn parsed(r: DbResult<(Statement, usize)>, spec: Option<(StatementView, int)>, len: int) -> bool {
    match spec {
        Some((st, q)) => r matches Ok(x) && x.0@ == st && x.1 == q && q <= len,
        None => r matches Err(e) && e is User,
    }
}

fn parse_create_table(t: &[Token], p: usize) -> (r: DbResult<(Statement, usize)>)
    requires
        p <= t@.len(),
    ensures
        parsed(r, create_table_spec(tokens_view(t@), p as int), t@.len() as int),
{
    let n = t.len();
    let name = match ident_at(t, p) {
        Some(n) => n,
        None => return Err(user_error("expected table name")),
    };
    if !at_punct(t, p + 1, Punct::LParen) {
        return Err(user_error("expected '(' after table name"));
    }
    let (columns, q) = parse_columns(t, p + 2)?;
    if !at_punct(t, q, Punct::RParen) {
        return Err(user_error("expected ')' after column list"));
    }
    Ok((Statement::CreateTable { name: normalize_name(name.as_str()), columns }, q + 1))
}

fn parse_create_index(t: &[Token], p: usize) -> (r: DbResult<(Statement, usize)>)
    requires
        p <= t@.len(),
    ensures
        parsed(r, create_index_spec(tokens_view(t@), p as int), t@.len() as int),
{
    let n = t.len();
    let name = match ident_at(t, p) {
        Some(n) => n,
        None => return Err(user_error("expected index name")),
    };
    if !keyword_at(t, p + 1, "ON") {
        return Err(user_error("expected keyword ON"));
    }
    let table = match ident_at(t, p + 2) {
        Some(n) => n,
        None => return Err(user_error("expected table name")),
    };
    if !at_punct(t, p + 3, Punct::LParen) {
        return Err(user_error("expected '(' before indexed column"));
    }
    let column = match ident_at(t, p + 4) {
        Some(n) => n,
        None => return Err(user_error("expected indexed column")),
    };
    if !at_punct(t, p + 5, Punct::RParen) {
        return Err(user_error("expected ')' after indexed column"));
    }
    Ok((Statement::CreateIndex {
        name: normalize_name(name.as_str()),
        table: normalize_name(table.as_str()),
        column: normalize_name(column.as_str()),
    }, p + 6))
}

fn parse_insert(t: &[Token], p: usize, d: &[Option<u64>]) -> (r: DbResult<(Statement, usize)>)
    requires
        p <= t@.len(),
    ensures
        parsed(r, insert_spec(tokens_view(t@), p as int, d@), t@.len() as int),
{
    let n = t.len();
    if !keyword_at(t, p, "INTO") {
        return Err(user_error("expected keyword INTO"));
    }
    let table = match ident_at(t, p + 1) {
        Some(n) => n,
        None => return Err(user_error("expected table name")),
    };
    if !keyword_at(t, p + 2, "VALUES") {
        return Err(user_error("expected keyword VALUES"));
    }
    if !at_punct(t, p + 3, Punct::LParen) {
        return Err(user_error("expected '(' before VALUES list"));
    }
    let table = normalize_name(table.as_str());
    if at_punct(t, p + 4, Punct::RParen) {
        let values: Vec<Value> = Vec::new();
        proof {
            assert(values@.map_values(|v: Value| v@) =~= Seq::<ValueView>::empty());
        }
        return Ok((Statement::Insert { table, values }, p + 5));
    }
    let (values, q) = parse_values(t, p + 4, d)?;
    Ok((Statement::Insert { table, values }, q))
}

fn parse_select(t: &[Token], p: usize, d: &[Option<u64>]) -> (r: DbResult<(Statement, usize)>)
    requires
        p <= t@.len(),
    ensures
        parsed(r, select_spec(tokens_view(t@), p as int, d@), t@.len() as int),
{
    let n = t.len();
    let ghost tv = tokens_view(t@);
    let projection: Projection;
    let q: usize;
    if at_punct(t, p, Punct::Star) {
        projection = Projection::All;
        q = p + 1;
    } else {
        let (names, q1) = parse_names(t, p)?;
        projection = Projection::Columns(names);
        q = q1;
    }
    assert(projection_spec(tv, p as int) == Some((projection@, q as int)));
    if !keyword_at(t, q, "FROM") {
        return Err(user_error("expected keyword FROM"));
    }
    let table = match ident_at(t, q + 1) {
        Some(n) => n,
        None => return Err(user_error("expected table name")),
    };
    let table = normalize_name(table.as_str());
    let r = q + 2;
    if keyword_at(t, r, "WHERE") {
        let column = match ident_at(t, r + 1) {
            Some(n) => n,
            None => return Err(user_error("expected predicate column")),
        };
        if !at_punct(t, r + 2, Punct::Eq) {
            return Err(user_error("expected '=' in WHERE predicate"));
        }
        let value = literal(t, r + 3, d)?;
        let column = normalize_name(column.as_str());
        Ok((Statement::Select { projection, table, selection: Some(Selection { column, value }) }, r + 4))
    } else {
        Ok((Statement::Select { projection, table, selection: None }, r))
    }
}

fn parse_load(t: &[Token], p: usize) -> (r: DbResult<(Statement, usize)>)
    requires
        p <= t@.len(),
    ensures
        parsed(r, load_spec(tokens_view(t@), p as int), t@.len() as int),
{
    let n = t.len();
    if !keyword_at(t, p, "EXTENSION") {
        return Err(user_error("expected keyword EXTENSION"));
    }
    let name = match ident_at(t, p + 1) {
        Some(x) => x,
        None => return Err(user_error("expected extension name")),
    };
    Ok((Statement::LoadExtension { name: normalize_name(name.as_str()) }, p + 2))
}

fn parse_call(t: &[Token], p: usize, d: &[Option<u64>]) -> (r: DbResult<(Statement, usize)>)
    requires
        p <= t@.len(),
        tok(tokens_view(t@), p + 1) is LParen,
    ensures
        parsed(r, call_spec(tokens_view(t@), p as int, d@), t@.len() as int),
{
    let n = t.len();
    let f = match ident_at(t, p) {
        Some(x) => x,
        None => return Err(user_error("expected function name")),
    };
    let name = normalize_name(f.as_str());
    if at_punct(t, p + 2, Punct::RParen) {
        let args: Vec<Value> = Vec::new();
        proof {
            assert(values_view(args@) =~= Seq::<ValueView>::empty());
        }
        return Ok((Statement::SelectFunction { name, args }, p + 3));
    }
    let (args, q) = parse_values(t, p + 2, d)?;
    Ok((Statement::SelectFunction { name, args }, q))
}

/// Parse one statement from the tokens of one SQL text. `doubles[i]` is the
/// bit pattern of the double that the text of token `i` converts to, for the
/// number tokens with a `.`; `None` there makes the literal an error.
pub fn parse_statement(tokens: &[Token], doubles: &[Option<u64>]) -> (r: DbResult<Statement>)
    ensures
        match parse_spec(tokens_view(tokens@), doubles@) {
            Some(st) => r matches Ok(x) && x@ == st,
            None => r matches Err(e) && e is User,
        },
{
    let n = tokens.len();
    let t = tokens;
    let (statement, q) = if keyword_at(t, 0, "CREATE") {
        if keyword_at(t, 1, "TABLE") {
            parse_create_table(t, 2)?
        } else if keyword_at(t, 1, "INDEX") {
            parse_create_index(t, 2)?
        } else {
            return Err(user_error("expected TABLE or INDEX after CREATE"));
        }
    } else if keyword_at(t, 0, "INSERT") {
        parse_insert(t, 1, doubles)?
    } else if keyword_at(t, 0, "SELECT") {
        if ident_at(t, 1).is_some() && at_punct(t, 2, Punct::LParen) {
            parse_call(t, 1, doubles)?
        } else {
            parse_select(t, 1, doubles)?
        }
    } else if keyword_at(t, 0, "LOAD") {
        parse_load(t, 1)?
    } else {
        return Err(user_error("expected CREATE, INSERT, SELECT or LOAD"));
    };
    let mut k = q;
    while at_punct(t, k, Punct::Semicolon)
        invariant
            k <= t@.len(),
            n == t@.len(),
            skip_semicolons(tokens_view(t@), q as int) == skip_semicolons(tokens_view(t@), k as int),
        decreases t@.len() - k,
    {
        k = k + 1;
    }
    if at_punct(t, k, Punct::Eof) {
        Ok(statement)
    } else {
        Err(user_error("unexpected token after SQL statement"))
    }
}

/// Law (integer literals keep their sign): for a string `d` of decimal
/// digits, the literal `d` and `+d` read as the value of `d`, and `-d` as its
/// negation, each when it fits an `i64`; so `-d` reads as the negation of
/// what `d` reads as.
pub proof fn law_int_literal_sign(d: Seq<char>)
    requires
        d.len() > 0,
        forall|i: int| 0 <= i < d.len() ==> #[trigger] is_digit(d[i]),
    ensures
        int_literal(d) == (if digits_value(d) <= i64::MAX { Some(digits_value(d) as i64) } else { None::<i64> }),
        int_literal(seq!['+'] + d) == int_literal(d),
        int_literal(seq!['-'] + d) == (if -digits_value(d) >= i64::MIN { Some((-digits_value(d)) as i64) } else { None::<i64> }),
        int_literal(d) matches Some(x) ==> int_literal(seq!['-'] + d) == Some((-x) as i64),
{
    lemma_digits_nonneg(d);
    assert(d[0] != '-' && d[0] != '+') by {
        assert(is_digit(d[0]));
    }
    assert(int_body(d) == d);
    assert((seq!['+'] + d).drop_first() =~= d);
    assert((seq!['-'] + d).drop_first() =~= d);
    assert(int_body(seq!['+'] + d) == d);
    assert(int_body(seq!['-'] + d) == d);
}

proof fn lemma_digits_nonneg(d: Seq<char>)
    requires
        forall|i: int| 0 <= i < d.len() ==> #[trigger] is_digit(d[i]),
    ensures
        digits_value(d) >= 0,
    decreases d.len(),
{
    if d.len() > 0 {
        assert(is_digit(d[d.len() - 1]));
        assert forall|i: int| 0 <= i < d.drop_last().len() implies #[trigger] is_digit(d.drop_last()[i]) by {
            assert(is_digit(d[i]));
        }
        lemma_digits_nonneg(d.drop_last());
    }
}
} // verus!
