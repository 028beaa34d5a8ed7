use vstd::prelude::*;

use crate::ast::{
    models, ColumnDefinition, ColumnModel, Condition, ConditionModel, CreateTableStatement,
    Expression, ExpressionModel, JoinModel, JoinType, Operator, SelectColumn,
    SelectColumnModel, SelectStatement, Value, ValueModel,
};
use crate::text::{chars_of, decimal_int, push_int};

verus! {

// ---------------------------------------------------------------------------
// Meaning of conditions and projections
// ---------------------------------------------------------------------------

/// `a` comes before `b` in lexicographic order of code points (the order of
/// Rust's `String`s).
pub open spec fn text_lt(a: Seq<char>, b: Seq<char>) -> bool
    decreases a.len(),
{
    if a.len() == 0 {
        b.len() > 0
    } else if b.len() == 0 {
        false
    } else if a[0] != b[0] {
        (a[0] as u32) < (b[0] as u32)
    } else {
        text_lt(a.skip(1), b.skip(1))
    }
}

pub open spec fn int_compares(l: i64, op: Operator, r: i64) -> bool {
    match op {
        Operator::Equals => l == r,
        Operator::NotEquals => l != r,
        Operator::GreaterThan => l > r,
        Operator::LessThan => l < r,
        Operator::GreaterThanOrEqual => l >= r,
        Operator::LessThanOrEqual => l <= r,
    }
}

pub open spec fn text_compares(l: Seq<char>, op: Operator, r: Seq<char>) -> bool {
    match op {
        Operator::Equals => l == r,
        Operator::NotEquals => l != r,
        Operator::GreaterThan => text_lt(r, l),
        Operator::LessThan => text_lt(l, r),
        Operator::GreaterThanOrEqual => !text_lt(l, r),
        Operator::LessThanOrEqual => !text_lt(r, l),
    }
}

/// Integers and strings compare in their natural order; NULL equals NULL
/// under `=` and nothing else; any other pairing is false.
pub open spec fn compares(l: ValueModel, op: Operator, r: ValueModel) -> bool {
    match (l, r) {
        (ValueModel::Int(a), ValueModel::Int(b)) => int_compares(a, op, b),
        (ValueModel::Str(a), ValueModel::Str(b)) => text_compares(a, op, b),
        (ValueModel::Null, ValueModel::Null) => op == Operator::Equals,
        _ => false,
    }
}

pub open spec fn is_first_match(cols: Seq<ColumnModel>, name: Seq<char>, k: int) -> bool {
    &&& 0 <= k < cols.len()
    &&& cols[k].name == name
    &&& forall|j: int| 0 <= j < k ==> (#[trigger] cols[j]).name != name
}

/// The position of the first column called `name`.
pub open spec fn column_position(cols: Seq<ColumnModel>, name: Seq<char>) -> Option<int> {
    if exists|k: int| is_first_match(cols, name, k) {
        Some(choose|k: int| is_first_match(cols, name, k))
    } else {
        None
    }
}

/// The row's value at a column position, if the row reaches that far.
pub open spec fn cell(row: Seq<ValueModel>, pos: Option<int>) -> Option<ValueModel> {
    match pos {
        Some(k) => if k < row.len() {
            Some(row[k])
        } else {
            None
        },
        None => None,
    }
}

/// The value an expression stands for in `row`: a literal itself, a column
/// (qualified or not) the row's value at its position, if there is one and
/// the row reaches it.
pub open spec fn resolve(e: ExpressionModel, row: Seq<ValueModel>, cols: Seq<ColumnModel>) -> Option<
    ValueModel,
> {
    match e {
        ExpressionModel::Literal(v) => Some(v),
        ExpressionModel::Column(name) => cell(row, column_position(cols, name)),
        ExpressionModel::QualifiedColumn(_, name) => cell(row, column_position(cols, name)),
    }
}

pub open spec fn holds(c: ConditionModel, row: Seq<ValueModel>, cols: Seq<ColumnModel>) -> bool {
    match (resolve(c.left, row, cols), resolve(c.right, row, cols)) {
        (Some(l), Some(r)) => compares(l, c.operator, r),
        _ => false,
    }
}

pub open spec fn value_text(v: ValueModel) -> Seq<char> {
    match v {
        ValueModel::Int(n) => decimal_int(n as int),
        ValueModel::Str(s) => s,
        ValueModel::Null => seq!['N', 'U', 'L', 'L'],
    }
}

/// The output columns one select item stands for, as (position, name):
/// `*` all columns in order, a name its first column, or none where no column
/// has that name.
pub open spec fn shown_by(c: SelectColumnModel, cols: Seq<ColumnModel>) -> Seq<(int, Seq<char>)> {
    match c {
        SelectColumnModel::All => Seq::new(cols.len(), |k: int| (k, cols[k].name)),
        SelectColumnModel::Column(name) => match column_position(cols, name) {
            Some(k) => seq![(k, name)],
            None => Seq::empty(),
        },
        SelectColumnModel::QualifiedColumn(_, name) => match column_position(cols, name) {
            Some(k) => seq![(k, name)],
            None => Seq::empty(),
        },
    }
}

pub open spec fn shown(sel: Seq<SelectColumnModel>, cols: Seq<ColumnModel>) -> Seq<
    (int, Seq<char>),
>
    decreases sel.len(),
{
    if sel.len() == 0 {
        Seq::empty()
    } else {
        shown(sel.drop_last(), cols) + shown_by(sel.last(), cols)
    }
}

/// The rows that pass the condition, if any, in their order.
pub open spec fn kept_rows(
    rows: Seq<Seq<ValueModel>>,
    cond: Option<ConditionModel>,
    cols: Seq<ColumnModel>,
) -> Seq<Seq<ValueModel>>
    decreases rows.len(),
{
    if rows.len() == 0 {
        Seq::empty()
    } else {
        let rest = kept_rows(rows.drop_last(), cond, cols);
        let keep = match cond {
            Some(c) => holds(c, rows.last(), cols),
            None => true,
        };
        if keep {
            rest.push(rows.last())
        } else {
            rest
        }
    }
}

pub open spec fn project(row: Seq<ValueModel>, out: Seq<(int, Seq<char>)>) -> Seq<ValueModel> {
    Seq::new(out.len(), |k: int| row[out[k].0])
}

pub open spec fn rows_model(rows: Seq<Vec<Value>>) -> Seq<Seq<ValueModel>> {
    rows.map_values(|r: Vec<Value>| models(r@))
}

/// Every row holds a value for every column.
pub open spec fn rows_fit(rows: Seq<Seq<ValueModel>>, width: int) -> bool {
    forall|i: int| 0 <= i < rows.len() ==> (#[trigger] rows[i]).len() >= width
}

} // verus!

verus! {

/// The result of a SELECT: the output column names and the output rows, both
/// in order.
#[derive(Debug, Clone, PartialEq)]
pub struct QueryResult {
    pub columns: Vec<String>,
    pub rows: Vec<Vec<Value>>,
}

/// A copy of `v`.
pub fn copy_value(v: &Value) -> (r: Value)
    ensures
        r@ == v@,
{
    match v {
        Value::Int(n) => Value::Int(*n),
        Value::String(s) => Value::String(s.clone()),
        Value::Null => Value::Null,
    }
}

/// The text a value is shown as: an integer in decimal, a string as it is,
/// and `NULL`.
pub fn format_value(value: &Value) -> (r: String)
    ensures
        r@ == value_text(value@),
{
    match value {
        Value::Int(n) => {
            let mut s = String::new();
            push_int(&mut s, *n);
            assert(s@ =~= decimal_int(*n as int));
            s
        },
        Value::String(s) => s.clone(),
        Value::Null => {
            let mut s = String::new();
            crate::text::push_str(&mut s, "NULL");
            proof {
                reveal_strlit("NULL");
            }
            assert(s@ =~= seq!['N', 'U', 'L', 'L']);
            s
        },
    }
}

pub(crate) fn text_less(a: &String, b: &String) -> (r: bool)
    ensures
        r == text_lt(a@, b@),
{
    let x = chars_of(a.as_str());
    let y = chars_of(b.as_str());
    let mut i: usize = 0;
    assert(x@.skip(0) =~= x@);
    assert(y@.skip(0) =~= y@);
    while i < x.len() && i < y.len() && x[i] == y[i]
        invariant
            i <= x@.len(),
            i <= y@.len(),
            text_lt(x@.skip(i as int), y@.skip(i as int)) == text_lt(a@, b@),
            x@ == a@,
            y@ == b@,
        decreases x@.len() - i,
    {
        proof {
            assert(x@.skip(i as int).skip(1) =~= x@.skip(i + 1));
            assert(y@.skip(i as int).skip(1) =~= y@.skip(i + 1));
        }
        i = i + 1;
    }
    if i == x.len() {
        i < y.len()
    } else if i == y.len() {
        false
    } else {
        (x[i] as u32) < (y[i] as u32)
    }
}

/// Whether `left op right` holds: integers and strings in their natural
/// order, NULL equal only to NULL under `=`, any other pairing false.
pub fn compare_values(left: &Value, op: &Operator, right: &Value) -> (r: bool)
    ensures
        r == compares(left@, *op, right@),
{
    match (left, right) {
        (Value::Int(l), Value::Int(r)) => match op {
            Operator::Equals => *l == *r,
            Operator::NotEquals => *l != *r,
            Operator::GreaterThan => *l > *r,
            Operator::LessThan => *l < *r,
            Operator::GreaterThanOrEqual => *l >= *r,
            Operator::LessThanOrEqual => *l <= *r,
        },
        (Value::String(l), Value::String(r)) => match op {
            Operator::Equals => *l == *r,
            Operator::NotEquals => *l != *r,
            Operator::GreaterThan => text_less(r, l),
            Operator::LessThan => text_less(l, r),
            Operator::GreaterThanOrEqual => !text_less(l, r),
            Operator::LessThanOrEqual => !text_less(r, l),
        },
        (Value::Null, Value::Null) => match op {
            Operator::Equals => true,
            _ => false,
        },
        _ => false,
    }
}

proof fn lemma_first_match_unique(cols: Seq<ColumnModel>, name: Seq<char>, k: int)
    requires
        is_first_match(cols, name, k),
    ensures
        column_position(cols, name) == Some(k),
{
    let c = choose|m: int| is_first_match(cols, name, m);
    assert(is_first_match(cols, name, c));
    if c < k {
        assert(cols[c].name != name);
    } else if c > k {
        assert(cols[k].name != name);
    }
}

/// The position of the first column of `schema` called `name`.
pub fn find_column(schema: &[ColumnDefinition], name: &String) -> (r: Option<usize>)
    ensures
        match r {
            Some(k) => column_position(models(schema@), name@) == Some(k as int),
            None => column_position(models(schema@), name@) is None,
        },
{
    let ghost cols = models(schema@);
    let mut i: usize = 0;
    while i < schema.len()
        invariant
            i <= schema@.len(),
            cols == models(schema@),
            forall|j: int| 0 <= j < i ==> (#[trigger] cols[j]).name != name@,
        decreases schema@.len() - i,
    {
        if schema[i].name == *name {
            proof {
                assert(is_first_match(cols, name@, i as int));
                lemma_first_match_unique(cols, name@, i as int);
            }
            return Some(i);
        }
        i = i + 1;
    }
    assert(!exists|k: int| is_first_match(cols, name@, k));
    None
}

/// The value `expr` stands for in `row`: a literal itself, a column the
/// row's value in the first schema column of that name (`None` if none has
/// it, or the row is too short to hold it).
pub fn resolve_expression(expr: &Expression, row: &[Value], schema: &[ColumnDefinition]) -> (r:
    Option<Value>)
    ensures
        match r {
            Some(v) => resolve(expr@, models(row@), models(schema@)) == Some(v@),
            None => resolve(expr@, models(row@), models(schema@)) is None,
        },
{
    match expr {
        Expression::Literal(v) => Some(copy_value(v)),
        Expression::Column(name) => match find_column(schema, name) {
            Some(k) => if k < row.len() {
                Some(copy_value(&row[k]))
            } else {
                None
            },
            None => None,
        },
        Expression::QualifiedColumn(_, name) => match find_column(schema, name) {
            Some(k) => if k < row.len() {
                Some(copy_value(&row[k]))
            } else {
                None
            },
            None => None,
        },
    }
}

/// Whether `row` meets `condition`; false where a side names no column.
pub fn evaluate_condition(condition: &Condition, row: &[Value], schema: &[ColumnDefinition]) -> (r:
    bool)
    ensures
        r == holds(condition@, models(row@), models(schema@)),
{
    let left = resolve_expression(&condition.left, row, schema);
    let right = resolve_expression(&condition.right, row, schema);
    match (left, right) {
        (Some(l), Some(r)) => compare_values(&l, &condition.operator, &r),
        _ => false,
    }
}

pub open spec fn shown_model(d: Seq<(usize, String)>) -> Seq<(int, Seq<char>)> {
    d.map_values(|p: (usize, String)| (p.0 as int, p.1@))
}

fn shown_columns(sel: &Vec<SelectColumn>, schema: &Vec<ColumnDefinition>) -> (r: Vec<
    (usize, String),
>)
    ensures
        shown_model(r@) == shown(models(sel@), models(schema@)),
        forall|k: int| 0 <= k < r@.len() ==> (#[trigger] r@[k]).0 < schema@.len(),
{
    let ghost cols = models(schema@);
    let ghost sm = models(sel@);
    let mut out: Vec<(usize, String)> = Vec::new();
    let mut i: usize = 0;
    while i < sel.len()
        invariant
            i <= sel@.len(),
            cols == models(schema@),
            sm == models(sel@),
            shown_model(out@) == shown(sm.take(i as int), cols),
            forall|k: int| 0 <= k < out@.len() ==> (#[trigger] out@[k]).0 < schema@.len(),
        decreases sel@.len() - i,
    {
        let ghost before = shown_model(out@);
        proof {
            assert(sm.take(i + 1).drop_last() =~= sm.take(i as int));
            assert(sm.take(i + 1).last() == sel@[i as int]@);
        }
        match &sel[i] {
            SelectColumn::All => {
                let mut k: usize = 0;
                while k < schema.len()
                    invariant
                        k <= schema@.len(),
                        cols == models(schema@),
                        shown_model(out@) == before + Seq::new(k as nat, |m: int| (m, cols[m].name)),
                        forall|m: int| 0 <= m < out@.len() ==> (#[trigger] out@[m]).0 < schema@.len(),
                    decreases schema@.len() - k,
                {
                    let ghost prev = shown_model(out@);
                    let nm = schema[k].name.clone();
                    assert(nm@ == cols[k as int].name);
                    out.push((k, nm));
                    assert(shown_model(out@) =~= prev.push((k as int, cols[k as int].name)));
                    assert(shown_model(out@) =~= before + Seq::new(
                        (k + 1) as nat,
                        |m: int| (m, cols[m].name),
                    ));
                    k = k + 1;
                }
                assert(shown_model(out@) =~= before + shown_by(sm[i as int], cols));
            },
            SelectColumn::Column(name) | SelectColumn::QualifiedColumn(_, name) => {
                match find_column(schema.as_slice(), name) {
                    Some(k) => {
                        out.push((k, name.clone()));
                        assert(shown_model(out@) =~= before + shown_by(sm[i as int], cols));
                    },
                    None => {
                        assert(shown_model(out@) =~= before + shown_by(sm[i as int], cols));
                    },
                }
            },
        }
        i = i + 1;
    }
    assert(sm.take(sel@.len() as int) =~= sm);
    out
}

fn project_row(row: &Vec<Value>, out: &Vec<(usize, String)>) -> (r: Vec<Value>)
    requires
        forall|k: int| 0 <= k < out@.len() ==> (#[trigger] out@[k]).0 < row@.len(),
    ensures
        models(r@) == project(models(row@), shown_model(out@)),
{
    let mut vals: Vec<Value> = Vec::new();
    let mut k: usize = 0;
    while k < out.len()
        invariant
            k <= out@.len(),
            forall|m: int| 0 <= m < out@.len() ==> (#[trigger] out@[m]).0 < row@.len(),
            models(vals@) =~= project(models(row@), shown_model(out@)).take(k as int),
        decreases out@.len() - k,
    {
        let idx = out[k].0;
        let ghost prev = models(vals@);
        let v = copy_value(&row[idx]);
        assert(v@ == models(row@)[idx as int]);
        assert(shown_model(out@)[k as int].0 == idx as int);
        vals.push(v);
        assert(models(vals@) =~= prev.push(v@));
        assert(models(vals@) =~= project(models(row@), shown_model(out@)).take(k + 1));
        k = k + 1;
    }
    assert(project(models(row@), shown_model(out@)).take(out@.len() as int) =~= project(
        models(row@),
        shown_model(out@),
    ));
    vals
}

/// Filters `rows` by the statement's WHERE condition and projects them on
/// its select list, over the columns `columns`.
fn select_over(
    stmt: &SelectStatement,
    columns: &Vec<ColumnDefinition>,
    rows: &Vec<Vec<Value>>,
) -> (r: QueryResult)
    requires
        rows_fit(rows_model(rows@), columns@.len() as int),
    ensures
        models(r.columns@) == shown(stmt@.columns, models(columns@)).map_values(
            |p: (int, Seq<char>)| p.1,
        ),
        rows_model(r.rows@) == kept_rows(
            rows_model(rows@),
            stmt@.where_clause,
            models(columns@),
        ).map_values(|row: Seq<ValueModel>| project(row, shown(stmt@.columns, models(columns@)))),
{
    let ghost cols = models(columns@);
    let out = shown_columns(&stmt.columns, columns);
    let ghost sh = shown(stmt@.columns, cols);
    let mut names: Vec<String> = Vec::new();
    let mut i: usize = 0;
    while i < out.len()
        invariant
            i <= out@.len(),
            shown_model(out@) == sh,
            models(names@) =~= sh.map_values(|p: (int, Seq<char>)| p.1).take(i as int),
        decreases out@.len() - i,
    {
        let ghost prev = models(names@);
        let nm = out[i].1.clone();
        assert(nm@ == sh[i as int].1);
        names.push(nm);
        assert(models(names@) =~= prev.push(nm@));
        assert(models(names@) =~= sh.map_values(|p: (int, Seq<char>)| p.1).take(i + 1));
        i = i + 1;
    }
    assert(sh.map_values(|p: (int, Seq<char>)| p.1).take(out@.len() as int) =~= sh.map_values(
        |p: (int, Seq<char>)| p.1,
    ));
    let ghost rm = rows_model(rows@);
    let mut kept: Vec<Vec<Value>> = Vec::new();
    let mut j: usize = 0;
    while j < rows.len()
        invariant
            j <= rows@.len(),
            rm == rows_model(rows@),
            cols == models(columns@),
            shown_model(out@) == sh,
            sh == shown(stmt@.columns, cols),
            rows_fit(rm, columns@.len() as int),
            forall|k: int| 0 <= k < out@.len() ==> (#[trigger] out@[k]).0 < columns@.len(),
            rows_model(kept@) =~= kept_rows(rm.take(j as int), stmt@.where_clause, cols).map_values(
                |row: Seq<ValueModel>| project(row, sh),
            ),
        decreases rows@.len() - j,
    {
        let row = &rows[j];
        proof {
            assert(rm[j as int] == models(row@));
            assert(rm[j as int].len() >= columns@.len());
            assert(rm.take(j + 1).drop_last() =~= rm.take(j as int));
            assert(rm.take(j + 1).last() == models(row@));
        }
        let keep = match &stmt.where_clause {
            Some(w) => evaluate_condition(&w.condition, row.as_slice(), columns.as_slice()),
            None => true,
        };
        let ghost prev = rows_model(kept@);
        let ghost cond = stmt@.where_clause;
        assert(keep == match cond {
            Some(c) => holds(c, rm[j as int], cols),
            None => true,
        });
        if keep {
            let vals = project_row(row, &out);
            kept.push(vals);
            assert(rows_model(kept@) =~= prev.push(project(rm[j as int], sh)));
        }
        assert(rows_model(kept@) =~= kept_rows(rm.take(j + 1), cond, cols).map_values(
            |row: Seq<ValueModel>| project(row, sh),
        ));
        j = j + 1;
    }
    assert(rm.take(rows@.len() as int) =~= rm);
    QueryResult { columns: names, rows: kept }
}

} // verus!

verus! {

// ---------------------------------------------------------------------------
// Joins: the rows a SELECT reads are those of its FROM table joined, in turn,
// with each JOIN table. A joined row is a left row followed by a right row;
// its columns are the left columns followed by the right ones, and names
// resolve over them as for one table.
// ---------------------------------------------------------------------------

/// A table's schema and rows, as a SELECT reads them.
pub struct TableRows {
    pub schema: CreateTableStatement,
    pub rows: Vec<Vec<Value>>,
}

pub open spec fn nulls(n: nat) -> Seq<ValueModel> {
    Seq::new(n, |i: int| ValueModel::Null)
}

/// Every row holds exactly one value per column.
pub open spec fn rows_exact(rows: Seq<Seq<ValueModel>>, width: int) -> bool {
    forall|i: int| 0 <= i < rows.len() ==> (#[trigger] rows[i]).len() == width
}

/// The pairs of `l` with the rows of `rs` that meet `on`, in order.
pub open spec fn pairs_for(
    l: Seq<ValueModel>,
    rs: Seq<Seq<ValueModel>>,
    cols: Seq<ColumnModel>,
    on: ConditionModel,
) -> Seq<Seq<ValueModel>>
    decreases rs.len(),
{
    if rs.len() == 0 {
        Seq::empty()
    } else {
        let p = pairs_for(l, rs.drop_last(), cols, on);
        if holds(on, l + rs.last(), cols) {
            p.push(l + rs.last())
        } else {
            p
        }
    }
}

/// For each left row in order, its pairs; with `keep`, a left row without
/// any pair appears once, padded with NULLs.
pub open spec fn left_side(
    ls: Seq<Seq<ValueModel>>,
    rs: Seq<Seq<ValueModel>>,
    right_width: nat,
    cols: Seq<ColumnModel>,
    on: ConditionModel,
    keep: bool,
) -> Seq<Seq<ValueModel>>
    decreases ls.len(),
{
    if ls.len() == 0 {
        Seq::empty()
    } else {
        let p = left_side(ls.drop_last(), rs, right_width, cols, on, keep);
        let m = pairs_for(ls.last(), rs, cols, on);
        if m.len() == 0 && keep {
            p.push(ls.last() + nulls(right_width))
        } else {
            p + m
        }
    }
}

/// The right rows that pair with no left row, in order, padded with NULLs.
pub open spec fn right_side(
    ls: Seq<Seq<ValueModel>>,
    rs: Seq<Seq<ValueModel>>,
    left_width: nat,
    cols: Seq<ColumnModel>,
    on: ConditionModel,
) -> Seq<Seq<ValueModel>>
    decreases rs.len(),
{
    if rs.len() == 0 {
        Seq::empty()
    } else {
        let p = right_side(ls, rs.drop_last(), left_width, cols, on);
        if exists|i: int| 0 <= i < ls.len() && holds(on, #[trigger] ls[i] + rs.last(), cols) {
            p
        } else {
            p.push(nulls(left_width) + rs.last())
        }
    }
}

/// INNER keeps the pairs; LEFT also each unpaired left row; RIGHT also each
/// unpaired right row, after the pairs.
pub open spec fn join_rows(
    lc: Seq<ColumnModel>,
    ls: Seq<Seq<ValueModel>>,
    rc: Seq<ColumnModel>,
    rs: Seq<Seq<ValueModel>>,
    jt: JoinType,
    on: ConditionModel,
) -> Seq<Seq<ValueModel>> {
    let cols = lc + rc;
    let main = left_side(ls, rs, rc.len(), cols, on, jt == JoinType::Left);
    if jt == JoinType::Right {
        main + right_side(ls, rs, lc.len(), cols, on)
    } else {
        main
    }
}

/// The columns and rows that a SELECT reads: the FROM table joined with the
/// first `joins.len()` of `tables`, one after the other.
pub open spec fn source(
    from: (Seq<ColumnModel>, Seq<Seq<ValueModel>>),
    joins: Seq<JoinModel>,
    tables: Seq<(Seq<ColumnModel>, Seq<Seq<ValueModel>>)>,
) -> (Seq<ColumnModel>, Seq<Seq<ValueModel>>)
    decreases joins.len(),
{
    if joins.len() == 0 {
        from
    } else {
        let (c, r) = source(from, joins.drop_last(), tables);
        let (tc, tr) = tables[joins.len() - 1];
        (c + tc, join_rows(c, r, tc, tr, joins.last().join_type, joins.last().on))
    }
}

pub open spec fn table_model(t: TableRows) -> (Seq<ColumnModel>, Seq<Seq<ValueModel>>) {
    (t.schema@.columns, rows_model(t.rows@))
}

pub open spec fn tables_model(ts: Seq<TableRows>) -> Seq<(Seq<ColumnModel>, Seq<Seq<ValueModel>>)> {
    ts.map_values(|t: TableRows| table_model(t))
}

fn copy_row(row: &Vec<Value>) -> (r: Vec<Value>)
    ensures
        models(r@) == models(row@),
{
    let mut out: Vec<Value> = Vec::new();
    let mut k: usize = 0;
    while k < row.len()
        invariant
            k <= row@.len(),
            models(out@) == models(row@).take(k as int),
        decreases row@.len() - k,
    {
        let ghost prev = models(out@);
        let v = copy_value(&row[k]);
        out.push(v);
        assert(models(out@) =~= prev.push(v@));
        assert(models(out@) =~= models(row@).take(k + 1));
        k = k + 1;
    }
    assert(models(row@).take(row@.len() as int) =~= models(row@));
    out
}

fn concat_rows(a: &Vec<Value>, b: &Vec<Value>) -> (r: Vec<Value>)
    ensures
        models(r@) == models(a@) + models(b@),
{
    let mut out = copy_row(a);
    let mut k: usize = 0;
    while k < b.len()
        invariant
            k <= b@.len(),
            models(out@) == models(a@) + models(b@).take(k as int),
        decreases b@.len() - k,
    {
        let ghost prev = models(out@);
        let v = copy_value(&b[k]);
        out.push(v);
        assert(models(out@) =~= prev.push(v@));
        assert(models(out@) =~= models(a@) + models(b@).take(k + 1));
        k = k + 1;
    }
    assert(models(b@).take(b@.len() as int) =~= models(b@));
    out
}

fn null_row(n: usize) -> (r: Vec<Value>)
    ensures
        models(r@) == nulls(n as nat),
{
    let mut out: Vec<Value> = Vec::new();
    let mut k: usize = 0;
    while k < n
        invariant
            k <= n,
            models(out@) == nulls(k as nat),
        decreases n - k,
    {
        let ghost prev = models(out@);
        out.push(Value::Null);
        assert(models(out@) =~= prev.push(ValueModel::Null));
        assert(models(out@) =~= nulls((k + 1) as nat));
        k = k + 1;
    }
    out
}

fn copy_columns(cols: &Vec<ColumnDefinition>) -> (r: Vec<ColumnDefinition>)
    ensures
        models(r@) == models(cols@),
{
    let mut out: Vec<ColumnDefinition> = Vec::new();
    let mut k: usize = 0;
    while k < cols.len()
        invariant
            k <= cols@.len(),
            models(out@) == models(cols@).take(k as int),
        decreases cols@.len() - k,
    {
        let c = ColumnDefinition { name: cols[k].name.clone(), data_type: cols[k].data_type };
        let ghost prev = models(out@);
        out.push(c);
        assert(models(out@) =~= prev.push(cols@[k as int]@));
        assert(models(out@) =~= models(cols@).take(k + 1));
        k = k + 1;
    }
    assert(models(cols@).take(cols@.len() as int) =~= models(cols@));
    out
}

} // verus!

verus! {

fn join_step(
    lcols: &Vec<ColumnDefinition>,
    lrows: &Vec<Vec<Value>>,
    right: &TableRows,
    jt: JoinType,
    on: &Condition,
) -> (r: (Vec<ColumnDefinition>, Vec<Vec<Value>>))
    requires
        rows_exact(rows_model(lrows@), lcols@.len() as int),
        rows_exact(rows_model(right.rows@), right.schema.columns@.len() as int),
    ensures
        models(r.0@) == models(lcols@) + right.schema@.columns,
        rows_model(r.1@) == join_rows(
            models(lcols@),
            rows_model(lrows@),
            right.schema@.columns,
            rows_model(right.rows@),
            jt,
            on@,
        ),
        rows_exact(rows_model(r.1@), r.0@.len() as int),
{
    let ghost lc = models(lcols@);
    let ghost rc = right.schema@.columns;
    let ghost ls = rows_model(lrows@);
    let ghost rs = rows_model(right.rows@);
    let ghost cols = lc + rc;
    let ghost cond = on@;
    let lw = lcols.len();
    let rw = right.schema.columns.len();
    let mut combined = copy_columns(lcols);
    let mut k: usize = 0;
    while k < rw
        invariant
            k <= rw == right.schema.columns@.len(),
            rc == models(right.schema.columns@),
            models(combined@) == models(lcols@) + rc.take(k as int),
        decreases rw - k,
    {
        let c = ColumnDefinition {
            name: right.schema.columns[k].name.clone(),
            data_type: right.schema.columns[k].data_type,
        };
        let ghost prev = models(combined@);
        combined.push(c);
        assert(models(combined@) =~= prev.push(rc[k as int]));
        assert(models(combined@) =~= models(lcols@) + rc.take(k + 1));
        k = k + 1;
    }
    assert(rc.take(rw as int) =~= rc);
    let keep = jt == JoinType::Left;
    let nr = right.rows.len();
    let mut matched: Vec<bool> = Vec::new();
    let mut m: usize = 0;
    while m < nr
        invariant
            m <= nr == right.rows@.len(),
            matched@.len() == m,
            forall|j: int| 0 <= j < m ==> !(#[trigger] matched@[j]),
        decreases nr - m,
    {
        matched.push(false);
        m = m + 1;
    }
    let mut out: Vec<Vec<Value>> = Vec::new();
    let mut i: usize = 0;
    assert(ls.take(0) =~= Seq::<Seq<ValueModel>>::empty());
    assert(rows_model(out@) =~= Seq::<Seq<ValueModel>>::empty());
    while i < lrows.len()
        invariant
            i <= lrows@.len(),
            ls == rows_model(lrows@),
            rs == rows_model(right.rows@),
            cols == lc + rc,
            lc == models(lcols@),
            rc == right.schema@.columns,
            cond == on@,
            models(combined@) == cols,
            lw == lcols@.len(),
            rw == right.schema.columns@.len(),
            nr == right.rows@.len(),
            keep == (jt == JoinType::Left),
            rows_exact(ls, lw as int),
            rows_exact(rs, rw as int),
            matched@.len() == nr,
            forall|j: int|
                0 <= j < nr ==> (#[trigger] matched@[j] <==> exists|i2: int|
                    0 <= i2 < i && holds(cond, #[trigger] ls[i2] + rs[j], cols)),
            rows_model(out@) == left_side(ls.take(i as int), rs, rw as nat, cols, cond, keep),
            rows_exact(rows_model(out@), (lw + rw) as int),
        decreases lrows@.len() - i,
    {
        let l = &lrows[i];
        let ghost pm = matched@;
        let mut pairs: Vec<Vec<Value>> = Vec::new();
        let mut j: usize = 0;
        proof {
            assert(ls[i as int] == models(l@));
            assert(rs.take(0) =~= Seq::<Seq<ValueModel>>::empty());
            assert(rows_model(pairs@) =~= Seq::<Seq<ValueModel>>::empty());
        }
        while j < nr
            invariant
                j <= nr == right.rows@.len(),
                rs == rows_model(right.rows@),
                ls == rows_model(lrows@),
                i < lrows@.len(),
                models(l@) == ls[i as int],
                models(combined@) == cols,
                cond == on@,
                lw == lcols@.len(),
                rw == right.schema.columns@.len(),
                lw + rw == cols.len(),
                cols == lc + rc,
                lc == models(lcols@),
                rc == right.schema@.columns,
                rows_exact(ls, lw as int),
                rows_exact(rs, rw as int),
                matched@.len() == nr,
                pm.len() == nr,
                forall|j2: int|
                    0 <= j2 < j ==> (#[trigger] matched@[j2] == (pm[j2] || holds(
                        cond,
                        ls[i as int] + rs[j2],
                        cols,
                    ))),
                forall|j2: int| j <= j2 < nr ==> #[trigger] matched@[j2] == pm[j2],
                rows_model(pairs@) == pairs_for(ls[i as int], rs.take(j as int), cols, cond),
                rows_exact(rows_model(pairs@), (lw + rw) as int),
            decreases nr - j,
        {
            let c = concat_rows(l, &right.rows[j]);
            proof {
                assert(rs[j as int] == models(right.rows@[j as int]@));
                assert(rs.take(j + 1).drop_last() =~= rs.take(j as int));
                assert(rs.take(j + 1).last() == rs[j as int]);
            }
            proof {
                assert(ls[i as int].len() == lw);
                assert(rs[j as int].len() == rw);
                assert(c@.len() == models(c@).len());
                assert(combined@.len() == models(combined@).len());
            }
            let hit = evaluate_condition(on, c.as_slice(), combined.as_slice());
            if hit {
                let ghost prev = rows_model(pairs@);
                let ghost cm = models(c@);
                pairs.push(c);
                assert(rows_model(pairs@) =~= prev.push(cm));
                matched.set(j, true);
            }
            j = j + 1;
        }
        assert(rs.take(nr as int) =~= rs);
        proof {
            assert forall|j2: int|
                0 <= j2 < nr implies (#[trigger] matched@[j2] <==> exists|i2: int|
                    0 <= i2 < i + 1 && holds(cond, #[trigger] ls[i2] + rs[j2], cols)) by {
                if holds(cond, ls[i as int] + rs[j2], cols) {
                    assert(0 <= i < i + 1 && holds(cond, ls[i as int] + rs[j2], cols));
                }
                if exists|i2: int| 0 <= i2 < i + 1 && holds(cond, #[trigger] ls[i2] + rs[j2], cols) {
                    let w = choose|i2: int|
                        0 <= i2 < i + 1 && holds(cond, #[trigger] ls[i2] + rs[j2], cols);
                    if w < i {
                        assert(pm[j2]);
                    }
                }
            }
            assert(ls.take(i + 1).drop_last() =~= ls.take(i as int));
            assert(ls.take(i + 1).last() == ls[i as int]);
        }
        let ghost before = rows_model(out@);
        if pairs.len() == 0 && keep {
            let padded = concat_rows(l, &null_row(rw));
            let ghost pmod = models(padded@);
            out.push(padded);
            assert(rows_model(out@) =~= before.push(pmod));
        } else {
            let ghost pmodel = rows_model(pairs@);
            out.append(&mut pairs);
            assert(rows_model(out@) =~= before + pmodel);
        }
        i = i + 1;
    }
    assert(ls.take(lrows@.len() as int) =~= ls);
    if jt == JoinType::Right {
        let ghost main = rows_model(out@);
        let mut j: usize = 0;
        assert(rs.take(0) =~= Seq::<Seq<ValueModel>>::empty());
        assert(rows_model(out@) =~= main + right_side(ls, rs.take(0), lw as nat, cols, cond));
        while j < nr
            invariant
                j <= nr == right.rows@.len(),
                rs == rows_model(right.rows@),
                ls == rows_model(lrows@),
                lw == lcols@.len(),
                rw == right.schema.columns@.len(),
                rows_exact(rs, rw as int),
                matched@.len() == nr,
                forall|j2: int|
                    0 <= j2 < nr ==> (#[trigger] matched@[j2] <==> exists|i2: int|
                        0 <= i2 < ls.len() && holds(cond, #[trigger] ls[i2] + rs[j2], cols)),
                rows_model(out@) == main + right_side(ls, rs.take(j as int), lw as nat, cols, cond),
                rows_exact(rows_model(out@), (lw + rw) as int),
            decreases nr - j,
        {
            proof {
                assert(rs.take(j + 1).drop_last() =~= rs.take(j as int));
                assert(rs.take(j + 1).last() == rs[j as int]);
                assert(rs[j as int] == models(right.rows@[j as int]@));
            }
            let ghost before = rows_model(out@);
            if !matched[j] {
                let padded = concat_rows(&null_row(lw), &right.rows[j]);
                let ghost pmod = models(padded@);
                out.push(padded);
                assert(rows_model(out@) =~= before.push(pmod));
            }
            j = j + 1;
        }
        assert(rs.take(nr as int) =~= rs);
    }
    (combined, out)
}

/// Runs a SELECT: reads the FROM table joined, in turn, with each JOIN table
/// (`joined`, in the order of the clauses; a join needs every row to hold one
/// value per column, a single table only that no row is short), keeps the rows that meet the WHERE
/// condition, in order, and gives each as the values of the output columns
/// (`*` is every column; a name that no column has is left out).
pub fn execute_select(stmt: &SelectStatement, from: &TableRows, joined: &Vec<TableRows>) -> (r:
    QueryResult)
    requires
        joined@.len() == stmt.joins@.len(),
        stmt.joins@.len() == 0 ==> rows_fit(rows_model(from.rows@), from.schema.columns@.len() as int),
        stmt.joins@.len() > 0 ==> rows_exact(rows_model(from.rows@), from.schema.columns@.len() as int),
        stmt.joins@.len() > 0 ==> forall|k: int|
            0 <= k < joined@.len() ==> rows_exact(
                rows_model((#[trigger] joined@[k]).rows@),
                joined@[k].schema.columns@.len() as int,
            ),
    ensures
        models(r.columns@) == shown(
            stmt@.columns,
            source(table_model(*from), stmt@.joins, tables_model(joined@)).0,
        ).map_values(|p: (int, Seq<char>)| p.1),
        rows_model(r.rows@) == kept_rows(
            source(table_model(*from), stmt@.joins, tables_model(joined@)).1,
            stmt@.where_clause,
            source(table_model(*from), stmt@.joins, tables_model(joined@)).0,
        ).map_values(
            |row: Seq<ValueModel>|
                project(
                    row,
                    shown(
                        stmt@.columns,
                        source(table_model(*from), stmt@.joins, tables_model(joined@)).0,
                    ),
                ),
        ),
{
    let ghost ts = tables_model(joined@);
    let ghost js = stmt@.joins;
    if stmt.joins.len() == 0 {
        assert(js =~= Seq::<JoinModel>::empty());
        return select_over(stmt, &from.schema.columns, &from.rows);
    }
    let mut cols = copy_columns(&from.schema.columns);
    let mut rows: Vec<Vec<Value>> = Vec::new();
    let mut i: usize = 0;
    while i < from.rows.len()
        invariant
            i <= from.rows@.len(),
            rows_model(rows@) == rows_model(from.rows@).take(i as int),
        decreases from.rows@.len() - i,
    {
        let ghost prev = rows_model(rows@);
        let row = copy_row(&from.rows[i]);
        let ghost rm = models(row@);
        rows.push(row);
        assert(rows_model(rows@) =~= prev.push(rm));
        assert(rows_model(rows@) =~= rows_model(from.rows@).take(i + 1));
        i = i + 1;
    }
    assert(rows_model(from.rows@).take(from.rows@.len() as int) =~= rows_model(from.rows@));
    assert(js.take(0) =~= Seq::<JoinModel>::empty());
    assert(cols@.len() == models(cols@).len());
    assert(from.schema.columns@.len() == models(from.schema.columns@).len());
    assert(rows_exact(rows_model(rows@), cols@.len() as int));
    let mut k: usize = 0;
    while k < stmt.joins.len()
        invariant
            k <= stmt.joins@.len(),
            joined@.len() == stmt.joins@.len(),
            ts == tables_model(joined@),
            js == stmt@.joins,
            (models(cols@), rows_model(rows@)) == source(table_model(*from), js.take(k as int), ts),
            rows_exact(rows_model(rows@), cols@.len() as int),
            forall|m: int|
                0 <= m < joined@.len() ==> rows_exact(
                    rows_model((#[trigger] joined@[m]).rows@),
                    joined@[m].schema.columns@.len() as int,
                ),
        decreases stmt.joins@.len() - k,
    {
        let j = &stmt.joins[k];
        let t = &joined[k];
        let (c2, r2) = join_step(&cols, &rows, t, j.join_type, &j.on);
        proof {
            assert(js.take(k + 1).drop_last() =~= js.take(k as int));
            assert(js.take(k + 1).last() == j@);
            assert(ts[k as int] == table_model(*t));
        }
        cols = c2;
        rows = r2;
        k = k + 1;
    }
    assert(js.take(stmt.joins@.len() as int) =~= js);
    select_over(stmt, &cols, &rows)
}

} // verus!
