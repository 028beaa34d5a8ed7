use vstd::prelude::*;

use crate::ast::{
    models, ColumnDefinition, ColumnModel, Condition, ConditionModel, CreateTableStatement,
    DataType, Expression, ExpressionModel, InsertModel, InsertStatement, JoinClause, JoinModel,
    JoinType, Operator, SchemaModel, SelectColumn, SelectColumnModel, SelectModel,
    SelectStatement, SqlStatement, StatementModel, Value, ValueModel, WhereClause,
};
use crate::text::{
    all_digits, alphanumeric, chars_of, digits_value, is_alphanumeric, is_ascii_letter,
    is_digit, is_digit_char, is_space, letter_char, matches_at, occurs_at, space_char,
    string_of_range,
};

verus! {

// ---------------------------------------------------------------------------
// The grammar, as functions from a text and a position to what is read there
// and the position after it (`None`: nothing of that kind starts there).
// ---------------------------------------------------------------------------

/// The position after the whitespace that starts at `i`.
pub open spec fn ws_end(s: Seq<char>, i: int) -> int
    decreases s.len() - i,
{
    if 0 <= i < s.len() && is_space(s[i]) {
        ws_end(s, i + 1)
    } else {
        i
    }
}

/// At least one whitespace character.
pub open spec fn ws1(s: Seq<char>, i: int) -> Option<int> {
    if 0 <= i < s.len() && is_space(s[i]) {
        Some(ws_end(s, i))
    } else {
        None
    }
}

pub open spec fn tag(s: Seq<char>, i: int, t: Seq<char>) -> Option<int> {
    if occurs_at(s, i, t) {
        Some(i + t.len())
    } else {
        None
    }
}

pub open spec fn char_at(s: Seq<char>, i: int, c: char) -> bool {
    0 <= i < s.len() && s[i] == c
}

pub open spec fn is_word_char(c: char) -> bool {
    alphanumeric(c) || c == '_'
}

pub open spec fn word_end(s: Seq<char>, i: int) -> int
    decreases s.len() - i,
{
    if 0 <= i < s.len() && is_word_char(s[i]) {
        word_end(s, i + 1)
    } else {
        i
    }
}

/// An identifier: an ASCII letter, then letters, digits and `_`.
pub open spec fn ident(s: Seq<char>, i: int) -> Option<int> {
    if 0 <= i < s.len() && is_ascii_letter(s[i]) {
        Some(word_end(s, i + 1))
    } else {
        None
    }
}

pub open spec fn ident_text(s: Seq<char>, i: int) -> Option<(Seq<char>, int)> {
    match ident(s, i) {
        Some(e) => Some((s.subrange(i, e), e)),
        None => None,
    }
}

pub open spec fn digits_end(s: Seq<char>, i: int) -> int
    decreases s.len() - i,
{
    if 0 <= i < s.len() && is_digit(s[i]) {
        digits_end(s, i + 1)
    } else {
        i
    }
}

/// An unsigned decimal that fits in 64 bits.
pub open spec fn unsigned(s: Seq<char>, i: int) -> Option<(usize, int)> {
    let e = digits_end(s, i);
    let v = digits_value(s.subrange(i, e));
    if e > i && v <= u64::MAX {
        Some((v as usize, e))
    } else {
        None
    }
}

/// A signed decimal: an optional `+` or `-`, then digits, within 64 bits.
pub open spec fn signed(s: Seq<char>, i: int) -> Option<(i64, int)> {
    let has_sign = char_at(s, i, '-') || char_at(s, i, '+');
    let k = if has_sign { i + 1 } else { i };
    let e = digits_end(s, k);
    let m = digits_value(s.subrange(k, e));
    let v = if char_at(s, i, '-') { -m } else { m };
    if e > k && i64::MIN <= v <= i64::MAX {
        Some((v as i64, e))
    } else {
        None
    }
}

pub open spec fn quote_end(s: Seq<char>, i: int) -> int
    decreases s.len() - i,
{
    if 0 <= i < s.len() && s[i] != '\'' {
        quote_end(s, i + 1)
    } else {
        i
    }
}

/// A quoted string, possibly empty; it cannot hold a quote.
pub open spec fn string_literal(s: Seq<char>, i: int) -> Option<(Seq<char>, int)> {
    let e = quote_end(s, i + 1);
    if char_at(s, i, '\'') && e < s.len() {
        Some((s.subrange(i + 1, e), e + 1))
    } else {
        None
    }
}

/// A literal value, with the whitespace around it.
pub open spec fn value(s: Seq<char>, i: int) -> Option<(ValueModel, int)> {
    let j = ws_end(s, i);
    let r = match string_literal(s, j) {
        Some((t, e)) => Some((ValueModel::Str(t), e)),
        None => match tag(s, j, seq!['N', 'U', 'L', 'L']) {
            Some(e) => Some((ValueModel::Null, e)),
            None => match signed(s, j) {
                Some((n, e)) => Some((ValueModel::Int(n), e)),
                None => None,
            },
        },
    };
    match r {
        Some((v, e)) => Some((v, ws_end(s, e))),
        None => None,
    }
}

pub open spec fn operator(s: Seq<char>, i: int) -> Option<(Operator, int)> {
    if char_at(s, i, '=') {
        Some((Operator::Equals, i + 1))
    } else if char_at(s, i, '!') && char_at(s, i + 1, '=') {
        Some((Operator::NotEquals, i + 2))
    } else if char_at(s, i, '>') && char_at(s, i + 1, '=') {
        Some((Operator::GreaterThanOrEqual, i + 2))
    } else if char_at(s, i, '<') && char_at(s, i + 1, '=') {
        Some((Operator::LessThanOrEqual, i + 2))
    } else if char_at(s, i, '>') {
        Some((Operator::GreaterThan, i + 1))
    } else if char_at(s, i, '<') {
        Some((Operator::LessThan, i + 1))
    } else {
        None
    }
}

/// `table.column`.
pub open spec fn qualified(s: Seq<char>, i: int) -> Option<(Seq<char>, Seq<char>, int)> {
    match ident_text(s, i) {
        Some((t, e)) => if char_at(s, e, '.') {
            match ident_text(s, e + 1) {
                Some((c, k)) => Some((t, c, k)),
                None => None,
            }
        } else {
            None
        },
        None => None,
    }
}

/// A qualified column, else a column, else a literal. The word `NULL` is the
/// NULL literal, not a column.
pub open spec fn expression(s: Seq<char>, i: int) -> Option<(ExpressionModel, int)> {
    match qualified(s, i) {
        Some((t, c, k)) => Some((ExpressionModel::QualifiedColumn(t, c), k)),
        None => match ident_text(s, i) {
            Some((c, k)) => if c == seq!['N', 'U', 'L', 'L'] {
                Some((ExpressionModel::Literal(ValueModel::Null), ws_end(s, k)))
            } else {
                Some((ExpressionModel::Column(c), k))
            },
            None => match value(s, i) {
                Some((v, k)) => Some((ExpressionModel::Literal(v), k)),
                None => None,
            },
        },
    }
}

pub open spec fn condition(s: Seq<char>, i: int) -> Option<(ConditionModel, int)> {
    match expression(s, ws_end(s, i)) {
        Some((l, e1)) => match operator(s, ws_end(s, e1)) {
            Some((op, e2)) => match expression(s, ws_end(s, e2)) {
                Some((r, e3)) => Some((ConditionModel { left: l, operator: op, right: r }, e3)),
                None => None,
            },
            None => None,
        },
        None => None,
    }
}

/// A comma with whitespace on either side.
pub open spec fn list_sep(s: Seq<char>, i: int) -> Option<int> {
    let j = ws_end(s, i);
    if char_at(s, j, ',') {
        Some(ws_end(s, j + 1))
    } else {
        None
    }
}

pub open spec fn select_column(s: Seq<char>, i: int) -> Option<(SelectColumnModel, int)> {
    let j = ws_end(s, i);
    if char_at(s, j, '*') {
        Some((SelectColumnModel::All, j + 1))
    } else {
        match qualified(s, j) {
            Some((t, c, k)) => Some((SelectColumnModel::QualifiedColumn(t, c), k)),
            None => match ident_text(s, j) {
                Some((c, k)) => Some((SelectColumnModel::Column(c), k)),
                None => None,
            },
        }
    }
}

/// Further select columns, each after a separator; stops before a separator
/// that no column follows.
pub open spec fn select_columns_more(s: Seq<char>, j: int) -> (Seq<SelectColumnModel>, int)
    decreases s.len() - j,
{
    match list_sep(s, j) {
        Some(j2) => match select_column(s, j2) {
            Some((c, j3)) => if j < j3 <= s.len() {
                let (r, k) = select_columns_more(s, j3);
                (seq![c] + r, k)
            } else {
                (seq![c], j3)
            },
            None => (Seq::empty(), j),
        },
        None => (Seq::empty(), j),
    }
}

pub open spec fn select_columns(s: Seq<char>, i: int) -> (Seq<SelectColumnModel>, int) {
    match select_column(s, i) {
        Some((c, j)) => {
            let (r, k) = select_columns_more(s, j);
            (seq![c] + r, k)
        },
        None => (Seq::empty(), i),
    }
}

pub open spec fn where_clause(s: Seq<char>, i: int) -> Option<(ConditionModel, int)> {
    match tag(s, ws_end(s, i), seq!['W', 'H', 'E', 'R', 'E']) {
        Some(e) => match ws1(s, e) {
            Some(k) => condition(s, k),
            None => None,
        },
        None => None,
    }
}

pub open spec fn join_type(s: Seq<char>, i: int) -> Option<(JoinType, int)> {
    let join = seq!['J', 'O', 'I', 'N'];
    match tag(s, i, seq!['I', 'N', 'N', 'E', 'R', ' '] + join) {
        Some(e) => Some((JoinType::Inner, e)),
        None => match tag(s, i, seq!['L', 'E', 'F', 'T', ' '] + join) {
            Some(e) => Some((JoinType::Left, e)),
            None => match tag(s, i, seq!['R', 'I', 'G', 'H', 'T', ' '] + join) {
                Some(e) => Some((JoinType::Right, e)),
                None => match tag(s, i, join) {
                    Some(e) => Some((JoinType::Inner, e)),
                    None => None,
                },
            },
        },
    }
}

/// `ON condition`, after whitespace.
pub open spec fn join_on(s: Seq<char>, i: int) -> Option<(ConditionModel, int)> {
    match ws1(s, i) {
        Some(a) => match tag(s, a, seq!['O', 'N']) {
            Some(b) => match ws1(s, b) {
                Some(c) => condition(s, c),
                None => None,
            },
            None => None,
        },
        None => None,
    }
}

/// `JOIN table [alias] ON condition`; the alias is read only where an `ON`
/// clause follows it.
pub open spec fn join(s: Seq<char>, i: int) -> Option<(JoinModel, int)> {
    match ws1(s, i) {
        Some(a) => match join_type(s, a) {
            Some((jt, b)) => match ws1(s, b) {
                Some(c) => match ident_text(s, c) {
                    Some((table, d)) => {
                        let aliased = match ws1(s, d) {
                            Some(e) => match ident_text(s, e) {
                                Some((alias, f)) => match join_on(s, f) {
                                    Some((on, g)) => Some(
                                        (JoinModel { join_type: jt, table, alias: Some(alias), on }, g),
                                    ),
                                    None => None,
                                },
                                None => None,
                            },
                            None => None,
                        };
                        match aliased {
                            Some(r) => Some(r),
                            None => match join_on(s, d) {
                                Some((on, g)) => Some(
                                    (JoinModel { join_type: jt, table, alias: None, on }, g),
                                ),
                                None => None,
                            },
                        }
                    },
                    None => None,
                },
                None => None,
            },
            None => None,
        },
        None => None,
    }
}

pub open spec fn joins(s: Seq<char>, i: int) -> (Seq<JoinModel>, int)
    decreases s.len() - i,
{
    match join(s, i) {
        Some((jn, j)) => if i < j <= s.len() {
            let (r, k) = joins(s, j);
            (seq![jn] + r, k)
        } else {
            (seq![jn], j)
        },
        None => (Seq::empty(), i),
    }
}

/// An optional `;` after whitespace.
pub open spec fn statement_end(s: Seq<char>, i: int) -> int {
    let j = ws_end(s, i);
    if char_at(s, j, ';') {
        j + 1
    } else {
        j
    }
}

pub open spec fn select(s: Seq<char>, i: int) -> Option<(StatementModel, int)> {
    match tag(s, i, seq!['S', 'E', 'L', 'E', 'C', 'T']) {
        Some(a) => match ws1(s, a) {
            Some(b) => {
                let (cols, c) = select_columns(s, b);
                match ws1(s, c) {
                    Some(d) => match tag(s, d, seq!['F', 'R', 'O', 'M']) {
                        Some(e) => match ws1(s, e) {
                            Some(f) => match ident_text(s, f) {
                                Some((from, g)) => {
                                    let (js, h) = joins(s, g);
                                    let (w, k) = match where_clause(s, h) {
                                        Some((cond, k)) => (Some(cond), k),
                                        None => (None, h),
                                    };
                                    Some(
                                        (
                                            StatementModel::Select(
                                                SelectModel {
                                                    columns: cols,
                                                    from,
                                                    where_clause: w,
                                                    joins: js,
                                                },
                                            ),
                                            statement_end(s, k),
                                        ),
                                    )
                                },
                                None => None,
                            },
                            None => None,
                        },
                        None => None,
                    },
                    None => None,
                }
            },
            None => None,
        },
        None => None,
    }
}

pub open spec fn data_type(s: Seq<char>, i: int) -> Option<(DataType, int)> {
    match tag(s, i, seq!['I', 'N', 'T']) {
        Some(e) => Some((DataType::Int, e)),
        None => match tag(s, i, seq!['V', 'A', 'R', 'C', 'H', 'A', 'R']) {
            Some(e) => {
                let size = if char_at(s, e, '(') {
                    match unsigned(s, e + 1) {
                        Some((n, k)) => if char_at(s, k, ')') {
                            Some((n, k + 1))
                        } else {
                            None
                        },
                        None => None,
                    }
                } else {
                    None
                };
                match size {
                    Some((n, k)) => Some((DataType::Varchar(Some(n)), k)),
                    None => Some((DataType::Varchar(None), e)),
                }
            },
            None => None,
        },
    }
}

pub open spec fn column_definition(s: Seq<char>, i: int) -> Option<(ColumnModel, int)> {
    match ident_text(s, ws_end(s, i)) {
        Some((name, a)) => match ws1(s, a) {
            Some(b) => match data_type(s, b) {
                Some((dt, c)) => Some((ColumnModel { name, data_type: dt }, ws_end(s, c))),
                None => None,
            },
            None => None,
        },
        None => None,
    }
}

pub open spec fn column_definitions_more(s: Seq<char>, j: int) -> (Seq<ColumnModel>, int)
    decreases s.len() - j,
{
    if char_at(s, j, ',') {
        match column_definition(s, j + 1) {
            Some((c, j3)) => if j < j3 <= s.len() {
                let (r, k) = column_definitions_more(s, j3);
                (seq![c] + r, k)
            } else {
                (seq![c], j3)
            },
            None => (Seq::empty(), j),
        }
    } else {
        (Seq::empty(), j)
    }
}

pub open spec fn column_definitions(s: Seq<char>, i: int) -> (Seq<ColumnModel>, int) {
    match column_definition(s, i) {
        Some((c, j)) => {
            let (r, k) = column_definitions_more(s, j);
            (seq![c] + r, k)
        },
        None => (Seq::empty(), i),
    }
}

/// `CREATE TABLE name (column TYPE, ...)`, with at least one column.
pub open spec fn create_table(s: Seq<char>, i: int) -> Option<(StatementModel, int)> {
    match tag(s, i, seq!['C', 'R', 'E', 'A', 'T', 'E']) {
        Some(a) => match ws1(s, a) {
            Some(b) => match tag(s, b, seq!['T', 'A', 'B', 'L', 'E']) {
                Some(c) => match ws1(s, c) {
                    Some(d) => match ident_text(s, d) {
                        Some((name, e)) => {
                            let f = ws_end(s, e);
                            let (cols, g) = column_definitions(s, f + 1);
                            if char_at(s, f, '(') && cols.len() > 0 && char_at(s, g, ')') {
                                Some(
                                    (
                                        StatementModel::CreateTable(
                                            SchemaModel { table_name: name, columns: cols },
                                        ),
                                        statement_end(s, g + 1),
                                    ),
                                )
                            } else {
                                None
                            }
                        },
                        None => None,
                    },
                    None => None,
                },
                None => None,
            },
            None => None,
        },
        None => None,
    }
}

pub open spec fn values_more(s: Seq<char>, j: int) -> (Seq<ValueModel>, int)
    decreases s.len() - j,
{
    match list_sep(s, j) {
        Some(j2) => match value(s, j2) {
            Some((v, j3)) => if j < j3 <= s.len() {
                let (r, k) = values_more(s, j3);
                (seq![v] + r, k)
            } else {
                (seq![v], j3)
            },
            None => (Seq::empty(), j),
        },
        None => (Seq::empty(), j),
    }
}

pub open spec fn values(s: Seq<char>, i: int) -> (Seq<ValueModel>, int) {
    match value(s, i) {
        Some((v, j)) => {
            let (r, k) = values_more(s, j);
            (seq![v] + r, k)
        },
        None => (Seq::empty(), i),
    }
}

/// `INSERT INTO name VALUES (value, ...)`, with at least one value.
pub open spec fn insert(s: Seq<char>, i: int) -> Option<(StatementModel, int)> {
    match tag(s, i, seq!['I', 'N', 'S', 'E', 'R', 'T']) {
        Some(a) => match ws1(s, a) {
            Some(b) => match tag(s, b, seq!['I', 'N', 'T', 'O']) {
                Some(c) => match ws1(s, c) {
                    Some(d) => match ident_text(s, d) {
                        Some((name, e)) => match tag(
                            s,
                            ws_end(s, e),
                            seq!['V', 'A', 'L', 'U', 'E', 'S'],
                        ) {
                            Some(f) => {
                                let g = ws_end(s, f);
                                let (vs, h) = values(s, g + 1);
                                if char_at(s, g, '(') && vs.len() > 0 && char_at(s, h, ')') {
                                    Some(
                                        (
                                            StatementModel::Insert(
                                                InsertModel { table_name: name, values: vs },
                                            ),
                                            statement_end(s, h + 1),
                                        ),
                                    )
                                } else {
                                    None
                                }
                            },
                            None => None,
                        },
                        None => None,
                    },
                    None => None,
                },
                None => None,
            },
            None => None,
        },
        None => None,
    }
}

/// One statement, with the whitespace around it: an insert, else a create,
/// else a select.
pub open spec fn statement(s: Seq<char>, i: int) -> Option<(StatementModel, int)> {
    let j = ws_end(s, i);
    let r = match insert(s, j) {
        Some(r) => Some(r),
        None => match create_table(s, j) {
            Some(r) => Some(r),
            None => select(s, j),
        },
    };
    match r {
        Some((st, k)) => Some((st, ws_end(s, k))),
        None => None,
    }
}

} // verus!

verus! {

pub open spec fn lift<T: View>(r: Option<(T, usize)>) -> Option<(T::V, int)> {
    match r {
        Some((v, j)) => Some((v@, j as int)),
        None => None,
    }
}

pub open spec fn lift_plain<T>(r: Option<(T, usize)>) -> Option<(T, int)> {
    match r {
        Some((v, j)) => Some((v, j as int)),
        None => None,
    }
}

pub open spec fn lift_pos(r: Option<usize>) -> Option<int> {
    match r {
        Some(j) => Some(j as int),
        None => None,
    }
}

pub open spec fn ends_within<T>(r: Option<(T, usize)>, i: int, n: int) -> bool {
    match r {
        Some((_, j)) => i <= j <= n,
        None => true,
    }
}

fn skip_ws(s: &Vec<char>, i: usize) -> (r: usize)
    requires
        i <= s@.len(),
    ensures
        r as int == ws_end(s@, i as int),
        i <= r <= s@.len(),
{
    let mut k = i;
    while k < s.len() && space_char(s[k])
        invariant
            i <= k <= s@.len(),
            ws_end(s@, k as int) == ws_end(s@, i as int),
        decreases s@.len() - k,
    {
        k = k + 1;
    }
    k
}

fn skip_ws1(s: &Vec<char>, i: usize) -> (r: Option<usize>)
    requires
        i <= s@.len(),
    ensures
        lift_pos(r) == ws1(s@, i as int),
        r matches Some(j) ==> i < j <= s@.len(),
{
    if i < s.len() && space_char(s[i]) {
        Some(skip_ws(s, i + 1))
    } else {
        None
    }
}

fn read_tag(s: &Vec<char>, i: usize, t: &str) -> (r: Option<usize>)
    requires
        i <= s@.len(),
    ensures
        lift_pos(r) == tag(s@, i as int, t@),
        r matches Some(j) ==> i <= j <= s@.len(),
{
    let n = s.len();
    if matches_at(s, i, t) {
        Some(i + t.unicode_len())
    } else {
        None
    }
}

fn is_char_at(s: &Vec<char>, i: usize, c: char) -> (r: bool)
    ensures
        r == char_at(s@, i as int, c),
        s@.len() <= usize::MAX,
{
    i < s.len() && s[i] == c
}

fn read_ident(s: &Vec<char>, i: usize) -> (r: Option<(String, usize)>)
    requires
        i <= s@.len(),
    ensures
        lift(r) == ident_text(s@, i as int),
        ends_within(r, i as int, s@.len() as int),
{
    if i < s.len() && letter_char(s[i]) {
        let mut k = i + 1;
        while k < s.len() && (is_alphanumeric(s[k]) || s[k] == '_')
            invariant
                i < k <= s@.len(),
                word_end(s@, k as int) == word_end(s@, i + 1),
            decreases s@.len() - k,
        {
            k = k + 1;
        }
        Some((string_of_range(s, i, k), k))
    } else {
        None
    }
}

fn skip_digits(s: &Vec<char>, i: usize) -> (r: usize)
    requires
        i <= s@.len(),
    ensures
        r as int == digits_end(s@, i as int),
        i <= r <= s@.len(),
        all_digits(s@.subrange(i as int, r as int)),
{
    let mut k = i;
    while k < s.len() && is_digit_char(s[k])
        invariant
            i <= k <= s@.len(),
            digits_end(s@, k as int) == digits_end(s@, i as int),
            all_digits(s@.subrange(i as int, k as int)),
        decreases s@.len() - k,
    {
        assert(all_digits(s@.subrange(i as int, k + 1))) by {
            assert forall|m: int| 0 <= m < k + 1 - i implies is_digit(
                #[trigger] s@.subrange(i as int, k + 1)[m],
            ) by {
                if m < k - i {
                    assert(s@.subrange(i as int, k + 1)[m] == s@.subrange(i as int, k as int)[m]);
                }
            }
        }
        k = k + 1;
    }
    k
}

fn read_unsigned(s: &Vec<char>, i: usize) -> (r: Option<(usize, usize)>)
    requires
        i <= s@.len(),
    ensures
        lift_plain(r) == unsigned(s@, i as int),
        ends_within(r, i as int, s@.len() as int),
{
    let e = skip_digits(s, i);
    if e == i {
        return None;
    }
    let v = crate::text::digits_value_capped(s, i, e, 0x1_0000_0000_0000_0000u128);
    if v <= 0xffff_ffff_ffff_ffffu128 {
        Some((v as u64 as usize, e))
    } else {
        None
    }
}

fn read_signed(s: &Vec<char>, i: usize) -> (r: Option<(i64, usize)>)
    requires
        i <= s@.len(),
    ensures
        lift_plain(r) == signed(s@, i as int),
        ends_within(r, i as int, s@.len() as int),
{
    let neg = is_char_at(s, i, '-');
    let k = if neg || is_char_at(s, i, '+') {
        i + 1
    } else {
        i
    };
    let e = skip_digits(s, k);
    if e == k {
        return None;
    }
    let v = crate::text::digits_value_capped(s, k, e, 0x8000_0000_0000_0001u128);
    if neg {
        if v <= 0x8000_0000_0000_0000u128 {
            Some(((-(v as i128)) as i64, e))
        } else {
            None
        }
    } else {
        if v <= 0x7fff_ffff_ffff_ffffu128 {
            Some((v as i64, e))
        } else {
            None
        }
    }
}

fn read_string_literal(s: &Vec<char>, i: usize) -> (r: Option<(String, usize)>)
    requires
        i <= s@.len(),
    ensures
        lift(r) == string_literal(s@, i as int),
        ends_within(r, i as int, s@.len() as int),
{
    if !is_char_at(s, i, '\'') {
        return None;
    }
    let mut k = i + 1;
    while k < s.len() && s[k] != '\''
        invariant
            i < k <= s@.len(),
            quote_end(s@, k as int) == quote_end(s@, i + 1),
        decreases s@.len() - k,
    {
        k = k + 1;
    }
    if k < s.len() {
        Some((string_of_range(s, i + 1, k), k + 1))
    } else {
        None
    }
}

fn read_value(s: &Vec<char>, i: usize) -> (r: Option<(Value, usize)>)
    requires
        i <= s@.len(),
    ensures
        lift(r) == value(s@, i as int),
        ends_within(r, i as int, s@.len() as int),
{
    proof {
        reveal_strlit("NULL");
        assert("NULL"@ =~= seq!['N', 'U', 'L', 'L']);
    }
    let j = skip_ws(s, i);
    let r = match read_string_literal(s, j) {
        Some((t, e)) => Some((Value::String(t), e)),
        None => match read_tag(s, j, "NULL") {
            Some(e) => Some((Value::Null, e)),
            None => match read_signed(s, j) {
                Some((n, e)) => Some((Value::Int(n), e)),
                None => None,
            },
        },
    };
    match r {
        Some((v, e)) => Some((v, skip_ws(s, e))),
        None => None,
    }
}

fn read_operator(s: &Vec<char>, i: usize) -> (r: Option<(Operator, usize)>)
    requires
        i <= s@.len(),
    ensures
        lift_plain(r) == operator(s@, i as int),
        ends_within(r, i as int, s@.len() as int),
{
    if is_char_at(s, i, '=') {
        Some((Operator::Equals, i + 1))
    } else if is_char_at(s, i, '!') && is_char_at(s, i + 1, '=') {
        Some((Operator::NotEquals, i + 2))
    } else if is_char_at(s, i, '>') && is_char_at(s, i + 1, '=') {
        Some((Operator::GreaterThanOrEqual, i + 2))
    } else if is_char_at(s, i, '<') && is_char_at(s, i + 1, '=') {
        Some((Operator::LessThanOrEqual, i + 2))
    } else if is_char_at(s, i, '>') {
        Some((Operator::GreaterThan, i + 1))
    } else if is_char_at(s, i, '<') {
        Some((Operator::LessThan, i + 1))
    } else {
        None
    }
}

fn read_qualified(s: &Vec<char>, i: usize) -> (r: Option<(String, String, usize)>)
    requires
        i <= s@.len(),
    ensures
        match r {
            Some((t, c, k)) => qualified(s@, i as int) == Some((t@, c@, k as int)) && i <= k
                <= s@.len(),
            None => qualified(s@, i as int) is None,
        },
{
    match read_ident(s, i) {
        Some((t, e)) => {
            if is_char_at(s, e, '.') {
                match read_ident(s, e + 1) {
                    Some((c, k)) => Some((t, c, k)),
                    None => None,
                }
            } else {
                None
            }
        },
        None => None,
    }
}

fn read_expression(s: &Vec<char>, i: usize) -> (r: Option<(Expression, usize)>)
    requires
        i <= s@.len(),
    ensures
        lift(r) == expression(s@, i as int),
        ends_within(r, i as int, s@.len() as int),
{
    match read_qualified(s, i) {
        Some((t, c, k)) => Some((Expression::QualifiedColumn(t, c), k)),
        None => match read_ident(s, i) {
            Some((c, k)) => {
                proof {
                    reveal_strlit("NULL");
                    assert(k == i + c@.len());
                    assert(c@ == s@.subrange(i as int, k as int));
                    assert("NULL"@ =~= seq!['N', 'U', 'L', 'L']);
                }
                if k - i == 4 && matches_at(s, i, "NULL") {
                    Some((Expression::Literal(Value::Null), skip_ws(s, k)))
                } else {
                    assert(c@ != seq!['N', 'U', 'L', 'L']) by {
                        if c@.len() == 4 {
                            assert(s@.subrange(i as int, i + 4) == c@);
                        }
                    }
                    Some((Expression::Column(c), k))
                }
            },
            None => match read_value(s, i) {
                Some((v, k)) => Some((Expression::Literal(v), k)),
                None => None,
            },
        },
    }
}

fn read_condition(s: &Vec<char>, i: usize) -> (r: Option<(Condition, usize)>)
    requires
        i <= s@.len(),
    ensures
        lift(r) == condition(s@, i as int),
        ends_within(r, i as int, s@.len() as int),
{
    match read_expression(s, skip_ws(s, i)) {
        Some((l, e1)) => match read_operator(s, skip_ws(s, e1)) {
            Some((op, e2)) => match read_expression(s, skip_ws(s, e2)) {
                Some((r, e3)) => Some((Condition { left: l, operator: op, right: r }, e3)),
                None => None,
            },
            None => None,
        },
        None => None,
    }
}

fn read_list_sep(s: &Vec<char>, i: usize) -> (r: Option<usize>)
    requires
        i <= s@.len(),
    ensures
        lift_pos(r) == list_sep(s@, i as int),
        r matches Some(j) ==> i < j <= s@.len(),
{
    let j = skip_ws(s, i);
    if is_char_at(s, j, ',') {
        Some(skip_ws(s, j + 1))
    } else {
        None
    }
}

fn read_select_column(s: &Vec<char>, i: usize) -> (r: Option<(SelectColumn, usize)>)
    requires
        i <= s@.len(),
    ensures
        lift(r) == select_column(s@, i as int),
        ends_within(r, i as int, s@.len() as int),
{
    let j = skip_ws(s, i);
    if is_char_at(s, j, '*') {
        Some((SelectColumn::All, j + 1))
    } else {
        match read_qualified(s, j) {
            Some((t, c, k)) => Some((SelectColumn::QualifiedColumn(t, c), k)),
            None => match read_ident(s, j) {
                Some((c, k)) => Some((SelectColumn::Column(c), k)),
                None => None,
            },
        }
    }
}

fn read_select_columns_more(s: &Vec<char>, j: usize, acc: &mut Vec<SelectColumn>) -> (k: usize)
    requires
        j <= s@.len(),
    ensures
        models(final(acc)@) == models(old(acc)@) + select_columns_more(s@, j as int).0,
        k == select_columns_more(s@, j as int).1,
        j <= k <= s@.len(),
    decreases s@.len() - j,
{
    let ghost before = models(acc@);
    match read_list_sep(s, j) {
        Some(j2) => match read_select_column(s, j2) {
            Some((c, j3)) => {
                let ghost cm = c@;
                acc.push(c);
                assert(models(acc@) =~= before.push(cm));
                let k = read_select_columns_more(s, j3, acc);
                assert(models(acc@) =~= before + (seq![cm] + select_columns_more(s@, j3 as int).0));
                k
            },
            None => {
                assert(models(acc@) =~= before + Seq::<SelectColumnModel>::empty());
                j
            },
        },
        None => {
            assert(models(acc@) =~= before + Seq::<SelectColumnModel>::empty());
            j
        },
    }
}

fn read_select_columns(s: &Vec<char>, i: usize) -> (r: (Vec<SelectColumn>, usize))
    requires
        i <= s@.len(),
    ensures
        (models(r.0@), r.1 as int) == select_columns(s@, i as int),
        i <= r.1 <= s@.len(),
{
    let mut acc: Vec<SelectColumn> = Vec::new();
    match read_select_column(s, i) {
        Some((c, j)) => {
            let ghost cm = c@;
            acc.push(c);
            assert(models(acc@) =~= seq![cm]);
            let k = read_select_columns_more(s, j, &mut acc);
            assert(models(acc@) =~= seq![cm] + select_columns_more(s@, j as int).0);
            (acc, k)
        },
        None => {
            assert(models(acc@) =~= Seq::<SelectColumnModel>::empty());
            (acc, i)
        },
    }
}

fn read_where(s: &Vec<char>, i: usize) -> (r: Option<(Condition, usize)>)
    requires
        i <= s@.len(),
    ensures
        lift(r) == where_clause(s@, i as int),
        ends_within(r, i as int, s@.len() as int),
{
    proof {
        reveal_strlit("WHERE");
        assert("WHERE"@ =~= seq!['W', 'H', 'E', 'R', 'E']);
    }
    match read_tag(s, skip_ws(s, i), "WHERE") {
        Some(e) => match skip_ws1(s, e) {
            Some(k) => read_condition(s, k),
            None => None,
        },
        None => None,
    }
}

fn read_join_type(s: &Vec<char>, i: usize) -> (r: Option<(JoinType, usize)>)
    requires
        i <= s@.len(),
    ensures
        lift_plain(r) == join_type(s@, i as int),
        ends_within(r, i as int, s@.len() as int),
{
    proof {
        reveal_strlit("INNER JOIN");
        reveal_strlit("LEFT JOIN");
        reveal_strlit("RIGHT JOIN");
        reveal_strlit("JOIN");
        let join = seq!['J', 'O', 'I', 'N'];
        assert("INNER JOIN"@ =~= seq!['I', 'N', 'N', 'E', 'R', ' '] + join);
        assert("LEFT JOIN"@ =~= seq!['L', 'E', 'F', 'T', ' '] + join);
        assert("RIGHT JOIN"@ =~= seq!['R', 'I', 'G', 'H', 'T', ' '] + join);
        assert("JOIN"@ =~= join);
    }
    match read_tag(s, i, "INNER JOIN") {
        Some(e) => Some((JoinType::Inner, e)),
        None => match read_tag(s, i, "LEFT JOIN") {
            Some(e) => Some((JoinType::Left, e)),
            None => match read_tag(s, i, "RIGHT JOIN") {
                Some(e) => Some((JoinType::Right, e)),
                None => match read_tag(s, i, "JOIN") {
                    Some(e) => Some((JoinType::Inner, e)),
                    None => None,
                },
            },
        },
    }
}

fn read_join_on(s: &Vec<char>, i: usize) -> (r: Option<(Condition, usize)>)
    requires
        i <= s@.len(),
    ensures
        lift(r) == join_on(s@, i as int),
        ends_within(r, i as int, s@.len() as int),
{
    proof {
        reveal_strlit("ON");
        assert("ON"@ =~= seq!['O', 'N']);
    }
    match skip_ws1(s, i) {
        Some(a) => match read_tag(s, a, "ON") {
            Some(b) => match skip_ws1(s, b) {
                Some(c) => read_condition(s, c),
                None => None,
            },
            None => None,
        },
        None => None,
    }
}

fn read_join(s: &Vec<char>, i: usize) -> (r: Option<(JoinClause, usize)>)
    requires
        i <= s@.len(),
    ensures
        lift(r) == join(s@, i as int),
        r matches Some((_, j)) ==> i < j <= s@.len(),
{
    let a = match skip_ws1(s, i) {
        Some(a) => a,
        None => return None,
    };
    let (jt, b) = match read_join_type(s, a) {
        Some(x) => x,
        None => return None,
    };
    let c = match skip_ws1(s, b) {
        Some(c) => c,
        None => return None,
    };
    let (table, d) = match read_ident(s, c) {
        Some(x) => x,
        None => return None,
    };
    if let Some(e) = skip_ws1(s, d) {
        if let Some((alias, f)) = read_ident(s, e) {
            if let Some((on, g)) = read_join_on(s, f) {
                return Some((JoinClause { join_type: jt, table, alias: Some(alias), on }, g));
            }
        }
    }
    match read_join_on(s, d) {
        Some((on, g)) => Some((JoinClause { join_type: jt, table, alias: None, on }, g)),
        None => None,
    }
}

fn read_joins(s: &Vec<char>, i: usize, acc: &mut Vec<JoinClause>) -> (k: usize)
    requires
        i <= s@.len(),
    ensures
        models(final(acc)@) == models(old(acc)@) + joins(s@, i as int).0,
        k == joins(s@, i as int).1,
        i <= k <= s@.len(),
    decreases s@.len() - i,
{
    let ghost before = models(acc@);
    match read_join(s, i) {
        Some((jn, j)) => {
            let ghost jm = jn@;
            acc.push(jn);
            assert(models(acc@) =~= before.push(jm));
            let k = read_joins(s, j, acc);
            assert(models(acc@) =~= before + (seq![jm] + joins(s@, j as int).0));
            k
        },
        None => {
            assert(models(acc@) =~= before + Seq::<JoinModel>::empty());
            i
        },
    }
}

fn read_statement_end(s: &Vec<char>, i: usize) -> (r: usize)
    requires
        i <= s@.len(),
    ensures
        r == statement_end(s@, i as int),
        i <= r <= s@.len(),
{
    let j = skip_ws(s, i);
    if is_char_at(s, j, ';') {
        j + 1
    } else {
        j
    }
}

fn read_select(s: &Vec<char>, i: usize) -> (r: Option<(SqlStatement, usize)>)
    requires
        i <= s@.len(),
    ensures
        lift(r) == select(s@, i as int),
        ends_within(r, i as int, s@.len() as int),
{
    proof {
        reveal_strlit("SELECT");
        reveal_strlit("FROM");
        assert("SELECT"@ =~= seq!['S', 'E', 'L', 'E', 'C', 'T']);
        assert("FROM"@ =~= seq!['F', 'R', 'O', 'M']);
    }
    let a = match read_tag(s, i, "SELECT") {
        Some(a) => a,
        None => return None,
    };
    let b = match skip_ws1(s, a) {
        Some(b) => b,
        None => return None,
    };
    let (columns, c) = read_select_columns(s, b);
    let d = match skip_ws1(s, c) {
        Some(d) => d,
        None => return None,
    };
    let e = match read_tag(s, d, "FROM") {
        Some(e) => e,
        None => return None,
    };
    let f = match skip_ws1(s, e) {
        Some(f) => f,
        None => return None,
    };
    let (from, g) = match read_ident(s, f) {
        Some(x) => x,
        None => return None,
    };
    let mut js: Vec<JoinClause> = Vec::new();
    let h = read_joins(s, g, &mut js);
    assert(models(js@) =~= joins(s@, g as int).0);
    let (where_clause, k) = match read_where(s, h) {
        Some((cond, k)) => (Some(WhereClause { condition: cond }), k),
        None => (None, h),
    };
    let end = read_statement_end(s, k);
    Some((SqlStatement::Select(SelectStatement { columns, from, where_clause, joins: js }), end))
}

fn read_data_type(s: &Vec<char>, i: usize) -> (r: Option<(DataType, usize)>)
    requires
        i <= s@.len(),
    ensures
        lift_plain(r) == data_type(s@, i as int),
        ends_within(r, i as int, s@.len() as int),
{
    proof {
        reveal_strlit("INT");
        reveal_strlit("VARCHAR");
        assert("INT"@ =~= seq!['I', 'N', 'T']);
        assert("VARCHAR"@ =~= seq!['V', 'A', 'R', 'C', 'H', 'A', 'R']);
    }
    match read_tag(s, i, "INT") {
        Some(e) => Some((DataType::Int, e)),
        None => match read_tag(s, i, "VARCHAR") {
            Some(e) => {
                let size = if is_char_at(s, e, '(') {
                    match read_unsigned(s, e + 1) {
                        Some((n, k)) => if is_char_at(s, k, ')') {
                            Some((n, k + 1))
                        } else {
                            None
                        },
                        None => None,
                    }
                } else {
                    None
                };
                match size {
                    Some((n, k)) => Some((DataType::Varchar(Some(n)), k)),
                    None => Some((DataType::Varchar(None), e)),
                }
            },
            None => None,
        },
    }
}

fn read_column_definition(s: &Vec<char>, i: usize) -> (r: Option<(ColumnDefinition, usize)>)
    requires
        i <= s@.len(),
    ensures
        lift(r) == column_definition(s@, i as int),
        ends_within(r, i as int, s@.len() as int),
{
    match read_ident(s, skip_ws(s, i)) {
        Some((name, a)) => match skip_ws1(s, a) {
            Some(b) => match read_data_type(s, b) {
                Some((dt, c)) => Some((ColumnDefinition { name, data_type: dt }, skip_ws(s, c))),
                None => None,
            },
            None => None,
        },
        None => None,
    }
}

fn read_column_definitions_more(
    s: &Vec<char>,
    j: usize,
    acc: &mut Vec<ColumnDefinition>,
) -> (k: usize)
    requires
        j <= s@.len(),
    ensures
        models(final(acc)@) == models(old(acc)@) + column_definitions_more(s@, j as int).0,
        k == column_definitions_more(s@, j as int).1,
        j <= k <= s@.len(),
    decreases s@.len() - j,
{
    let ghost before = models(acc@);
    if is_char_at(s, j, ',') {
        match read_column_definition(s, j + 1) {
            Some((c, j3)) => {
                let ghost cm = c@;
                acc.push(c);
                assert(models(acc@) =~= before.push(cm));
                let k = read_column_definitions_more(s, j3, acc);
                assert(models(acc@) =~= before + (seq![cm] + column_definitions_more(
                    s@,
                    j3 as int,
                ).0));
                k
            },
            None => {
                assert(models(acc@) =~= before + Seq::<ColumnModel>::empty());
                j
            },
        }
    } else {
        assert(models(acc@) =~= before + Seq::<ColumnModel>::empty());
        j
    }
}

fn read_create_table(s: &Vec<char>, i: usize) -> (r: Option<(SqlStatement, usize)>)
    requires
        i <= s@.len(),
    ensures
        lift(r) == create_table(s@, i as int),
        ends_within(r, i as int, s@.len() as int),
{
    proof {
        reveal_strlit("CREATE");
        reveal_strlit("TABLE");
        assert("CREATE"@ =~= seq!['C', 'R', 'E', 'A', 'T', 'E']);
        assert("TABLE"@ =~= seq!['T', 'A', 'B', 'L', 'E']);
    }
    let a = match read_tag(s, i, "CREATE") {
        Some(a) => a,
        None => return None,
    };
    let b = match skip_ws1(s, a) {
        Some(b) => b,
        None => return None,
    };
    let c = match read_tag(s, b, "TABLE") {
        Some(c) => c,
        None => return None,
    };
    let d = match skip_ws1(s, c) {
        Some(d) => d,
        None => return None,
    };
    let (name, e) = match read_ident(s, d) {
        Some(x) => x,
        None => return None,
    };
    let f = skip_ws(s, e);
    if !is_char_at(s, f, '(') {
        return None;
    }
    let mut columns: Vec<ColumnDefinition> = Vec::new();
    let g = match read_column_definition(s, f + 1) {
        Some((col, j)) => {
            let ghost cm = col@;
            columns.push(col);
            assert(models(columns@) =~= seq![cm]);
            let k = read_column_definitions_more(s, j, &mut columns);
            assert(models(columns@) =~= seq![cm] + column_definitions_more(s@, j as int).0);
            k
        },
        None => {
            assert(models(columns@) =~= Seq::<ColumnModel>::empty());
            f + 1
        },
    };
    if columns.len() == 0 || !is_char_at(s, g, ')') {
        return None;
    }
    let end = read_statement_end(s, g + 1);
    Some((SqlStatement::CreateTable(CreateTableStatement { table_name: name, columns }), end))
}

fn read_values_more(s: &Vec<char>, j: usize, acc: &mut Vec<Value>) -> (k: usize)
    requires
        j <= s@.len(),
    ensures
        models(final(acc)@) == models(old(acc)@) + values_more(s@, j as int).0,
        k == values_more(s@, j as int).1,
        j <= k <= s@.len(),
    decreases s@.len() - j,
{
    let ghost before = models(acc@);
    match read_list_sep(s, j) {
        Some(j2) => match read_value(s, j2) {
            Some((v, j3)) => {
                let ghost vm = v@;
                acc.push(v);
                assert(models(acc@) =~= before.push(vm));
                let k = read_values_more(s, j3, acc);
                assert(models(acc@) =~= before + (seq![vm] + values_more(s@, j3 as int).0));
                k
            },
            None => {
                assert(models(acc@) =~= before + Seq::<ValueModel>::empty());
                j
            },
        },
        None => {
            assert(models(acc@) =~= before + Seq::<ValueModel>::empty());
            j
        },
    }
}

fn read_insert(s: &Vec<char>, i: usize) -> (r: Option<(SqlStatement, usize)>)
    requires
        i <= s@.len(),
    ensures
        lift(r) == insert(s@, i as int),
        ends_within(r, i as int, s@.len() as int),
{
    proof {
        reveal_strlit("INSERT");
        reveal_strlit("INTO");
        reveal_strlit("VALUES");
        assert("INSERT"@ =~= seq!['I', 'N', 'S', 'E', 'R', 'T']);
        assert("INTO"@ =~= seq!['I', 'N', 'T', 'O']);
        assert("VALUES"@ =~= seq!['V', 'A', 'L', 'U', 'E', 'S']);
    }
    let a = match read_tag(s, i, "INSERT") {
        Some(a) => a,
        None => return None,
    };
    let b = match skip_ws1(s, a) {
        Some(b) => b,
        None => return None,
    };
    let c = match read_tag(s, b, "INTO") {
        Some(c) => c,
        None => return None,
    };
    let d = match skip_ws1(s, c) {
        Some(d) => d,
        None => return None,
    };
    let (name, e) = match read_ident(s, d) {
        Some(x) => x,
        None => return None,
    };
    let f = match read_tag(s, skip_ws(s, e), "VALUES") {
        Some(f) => f,
        None => return None,
    };
    let g = skip_ws(s, f);
    if !is_char_at(s, g, '(') {
        return None;
    }
    let mut vals: Vec<Value> = Vec::new();
    let h = match read_value(s, g + 1) {
        Some((v, j)) => {
            let ghost vm = v@;
            vals.push(v);
            assert(models(vals@) =~= seq![vm]);
            let k = read_values_more(s, j, &mut vals);
            assert(models(vals@) =~= seq![vm] + values_more(s@, j as int).0);
            k
        },
        None => {
            assert(models(vals@) =~= Seq::<ValueModel>::empty());
            g + 1
        },
    };
    if vals.len() == 0 || !is_char_at(s, h, ')') {
        return None;
    }
    let end = read_statement_end(s, h + 1);
    Some((SqlStatement::Insert(InsertStatement { table_name: name, values: vals }), end))
}

fn read_statement(s: &Vec<char>, i: usize) -> (r: Option<(SqlStatement, usize)>)
    requires
        i <= s@.len(),
    ensures
        lift(r) == statement(s@, i as int),
        ends_within(r, i as int, s@.len() as int),
{
    let j = skip_ws(s, i);
    let r = match read_insert(s, j) {
        Some(r) => Some(r),
        None => match read_create_table(s, j) {
            Some(r) => Some(r),
            None => read_select(s, j),
        },
    };
    match r {
        Some((st, k)) => Some((st, skip_ws(s, k))),
        None => None,
    }
}

} // verus!

verus! {

/// A statement that does not parse; `remaining` is the text from where the
/// failed construct was to start.
#[derive(Debug, Clone, PartialEq)]
pub struct SyntaxError {
    pub remaining: String,
}

/// `r` is what a parse of `s` gives when the grammar yields `p`: the parsed
/// item and the text after it, or an error that carries `s` from `fail_at` on.
pub open spec fn outcome<'a, T: View>(
    p: Option<(T::V, int)>,
    s: Seq<char>,
    r: Result<(&'a str, T), SyntaxError>,
    fail_at: int,
) -> bool {
    match r {
        Ok((rest, v)) => match p {
            Some((m, k)) => v@ == m && rest@ == s.skip(k),
            None => false,
        },
        Err(e) => p is None && e.remaining@ == s.skip(fail_at),
    }
}

fn finish<'a, T: View>(input: &'a str, r: Option<(T, usize)>, fail_at: usize) -> (res: Result<
    (&'a str, T),
    SyntaxError,
>)
    requires
        fail_at <= input@.len(),
        ends_within(r, 0, input@.len() as int),
    ensures
        outcome(lift(r), input@, res, fail_at as int),
{
    let n = input.unicode_len();
    match r {
        Some((v, k)) => Ok((input.substring_char(k, n), v)),
        None => {
            let rest = input.substring_char(fail_at, n);
            let mut remaining = String::new();
            crate::text::push_str(&mut remaining, rest);
            assert(remaining@ =~= input@.skip(fail_at as int));
            Err(SyntaxError { remaining })
        },
    }
}

/// Parses one statement (INSERT, CREATE TABLE or SELECT) with the whitespace
/// around it; the `;` at its end may be left out. Gives the statement and the
/// text after it.
pub fn parse_sql(input: &str) -> (r: Result<(&str, SqlStatement), SyntaxError>)
    ensures
        outcome(statement(input@, 0), input@, r, ws_end(input@, 0)),
{
    let cs = chars_of(input);
    let r = read_statement(&cs, 0);
    let start = skip_ws(&cs, 0);
    finish(input, r, start)
}

/// Parses `CREATE TABLE name (column TYPE, ...)` at the start of `input`.
pub fn parse_create_table(input: &str) -> (r: Result<(&str, SqlStatement), SyntaxError>)
    ensures
        outcome(create_table(input@, 0), input@, r, 0),
{
    let cs = chars_of(input);
    let r = read_create_table(&cs, 0);
    finish(input, r, 0)
}

/// Parses `INSERT INTO name VALUES (value, ...)` at the start of `input`.
pub fn parse_insert(input: &str) -> (r: Result<(&str, SqlStatement), SyntaxError>)
    ensures
        outcome(insert(input@, 0), input@, r, 0),
{
    let cs = chars_of(input);
    let r = read_insert(&cs, 0);
    finish(input, r, 0)
}

/// Parses `SELECT columns FROM name [joins] [WHERE condition]` at the start of `input`.
pub fn parse_select(input: &str) -> (r: Result<(&str, SqlStatement), SyntaxError>)
    ensures
        outcome(select(input@, 0), input@, r, 0),
{
    let cs = chars_of(input);
    let r = read_select(&cs, 0);
    finish(input, r, 0)
}

/// Parses one JOIN clause, which starts with whitespace.
pub fn parse_join(input: &str) -> (r: Result<(&str, JoinClause), SyntaxError>)
    ensures
        outcome(join(input@, 0), input@, r, 0),
{
    let cs = chars_of(input);
    let r = read_join(&cs, 0);
    finish(input, r, 0)
}

/// Parses `expression operator expression`.
pub fn parse_condition(input: &str) -> (r: Result<(&str, Condition), SyntaxError>)
    ensures
        outcome(condition(input@, 0), input@, r, 0),
{
    let cs = chars_of(input);
    let r = read_condition(&cs, 0);
    finish(input, r, 0)
}

} // verus!
