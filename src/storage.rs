use vstd::prelude::*;

use crate::ast::{
    models, values_model, ColumnModel, Condition, ConditionModel, CreateTableStatement, DataType,
    InsertStatement, SchemaModel, Value, ValueModel,
};
use crate::codec::{
    data_type_to_string, decode_rows, encode_row, parse_schema, rows_of_text, schema_of_text,
    schema_text, serialize_row, serialize_schema, type_text,
};
use crate::executor::{column_position, holds, is_first_match, rows_fit, rows_model, text_lt};
use crate::text::{push_str, string_of_range};

verus! {

/// Why a storage operation failed.
#[derive(Debug)]
pub enum StorageError {
    IoError(String),
    TableAlreadyExists(String),
    TableNotFound(String),
    InvalidSchema(String),
    ColumnCountMismatch { expected: usize, got: usize },
    TypeMismatch { column: String, expected: String, got: String },
    InvalidData(String),
}

/// The storage engine of one data directory. Each table `t` is two files in
/// it, `t.schema` and `t.data`. The engine decides; the caller reads and
/// writes the files and hands over what it found.
pub struct Storage {
    data_dir: String,
}

/// A file name placed in a directory, as `Path::join` does on Unix.
pub open spec fn joined(dir: Seq<char>, file: Seq<char>) -> Seq<char> {
    if file.len() > 0 && file[0] == '/' {
        file
    } else if dir.len() == 0 {
        file
    } else if dir.last() == '/' {
        dir + file
    } else {
        dir + seq!['/'] + file
    }
}

pub open spec fn schema_suffix() -> Seq<char> {
    seq!['.', 's', 'c', 'h', 'e', 'm', 'a']
}

pub open spec fn data_suffix() -> Seq<char> {
    seq!['.', 'd', 'a', 't', 'a']
}

pub open spec fn fits(v: ValueModel, dt: DataType) -> bool {
    match (v, dt) {
        (ValueModel::Null, _) => true,
        (ValueModel::Int(_), DataType::Int) => true,
        (ValueModel::Str(_), DataType::Varchar(_)) => true,
        _ => false,
    }
}

/// The name of a value's kind, as type errors report it.
pub open spec fn kind_text(v: ValueModel) -> Seq<char> {
    match v {
        ValueModel::Int(_) => seq!['I', 'N', 'T'],
        ValueModel::Str(_) => seq!['S', 'T', 'R', 'I', 'N', 'G'],
        ValueModel::Null => seq!['N', 'U', 'L', 'L'],
    }
}

pub open spec fn is_type_mismatch(e: StorageError, column: Seq<char>, dt: DataType, v: ValueModel) -> bool {
    match e {
        StorageError::TypeMismatch { column: c, expected, got } => c@ == column && expected@
            == type_text(dt) && got@ == kind_text(v),
        _ => false,
    }
}

/// `k` is the first position whose value does not fit its column.
pub open spec fn first_misfit(cols: Seq<ColumnModel>, vals: Seq<ValueModel>, k: int) -> bool {
    &&& 0 <= k < vals.len()
    &&& !fits(vals[k], cols[k].data_type)
    &&& forall|j: int| 0 <= j < k ==> fits(#[trigger] vals[j], cols[j].data_type)
}

/// What inserting `vals` into a table of columns `cols` gives: the line to
/// append to its data file, or the error.
pub open spec fn insert_outcome(
    cols: Seq<ColumnModel>,
    vals: Seq<ValueModel>,
    r: Result<String, StorageError>,
) -> bool {
    if vals.len() != cols.len() {
        r matches Err(StorageError::ColumnCountMismatch { expected, got }) && expected == cols.len()
            && got == vals.len()
    } else if exists|k: int| first_misfit(cols, vals, k) {
        exists|k: int|
            first_misfit(cols, vals, k) && (r matches Err(e) && is_type_mismatch(
                e,
                cols[k].name,
                cols[k].data_type,
                vals[k],
            ))
    } else {
        r matches Ok(line) && line@ == encode_row(vals)
    }
}

/// The table name a directory entry stands for: the stem of a `.schema` file.
pub open spec fn table_of_file(f: Seq<char>) -> Option<Seq<char>> {
    if f.len() > 7 && f.skip(f.len() - 7) == schema_suffix() {
        Some(f.take(f.len() - 7))
    } else {
        None
    }
}

pub open spec fn tables_of_files(fs: Seq<Seq<char>>) -> Seq<Seq<char>>
    decreases fs.len(),
{
    if fs.len() == 0 {
        Seq::empty()
    } else {
        match table_of_file(fs.last()) {
            Some(t) => tables_of_files(fs.drop_last()).push(t),
            None => tables_of_files(fs.drop_last()),
        }
    }
}

pub open spec fn sorted(s: Seq<Seq<char>>) -> bool {
    forall|i: int, j: int| 0 <= i < j < s.len() ==> !text_lt(#[trigger] s[j], #[trigger] s[i])
}

pub proof fn lemma_text_lt_transitive(a: Seq<char>, b: Seq<char>, c: Seq<char>)
    requires
        text_lt(a, b),
        text_lt(b, c),
    ensures
        text_lt(a, c),
    decreases a.len(),
{
    if a.len() > 0 && b.len() > 0 && c.len() > 0 && a[0] == b[0] && b[0] == c[0] {
        lemma_text_lt_transitive(a.skip(1), b.skip(1), c.skip(1));
    }
}

pub proof fn lemma_text_lt_irreflexive(a: Seq<char>)
    ensures
        !text_lt(a, a),
    decreases a.len(),
{
    if a.len() > 0 {
        lemma_text_lt_irreflexive(a.skip(1));
    }
}

/// Relies on std::path::Path::exists: whether the file system has something at `path`.
#[verifier::external_body]
fn path_exists(path: &str) -> bool {
    std::path::Path::new(path).exists()
}

fn suffixed(name: &str, suffix: &str) -> (r: String)
    ensures
        r@ == name@ + suffix@,
{
    let mut s = String::new();
    push_str(&mut s, name);
    push_str(&mut s, suffix);
    s
}

fn join_path(dir: &String, file: &String) -> (r: String)
    ensures
        r@ == joined(dir@, file@),
{
    let f = crate::text::chars_of(file.as_str());
    let d = crate::text::chars_of(dir.as_str());
    if f.len() > 0 && f[0] == '/' {
        return file.clone();
    }
    if d.len() == 0 {
        return file.clone();
    }
    let mut s = dir.clone();
    if d[d.len() - 1] != '/' {
        crate::text::push_char(&mut s, '/');
    }
    push_str(&mut s, file.as_str());
    s
}

/// Checks that `value` may stand in a column of type `data_type`; NULL fits
/// every column.
pub fn validate_value_type(value: &Value, data_type: &DataType, column_name: &str) -> (r: Result<
    (),
    StorageError,
>)
    ensures
        match r {
            Ok(_) => fits(value@, *data_type),
            Err(e) => !fits(value@, *data_type) && is_type_mismatch(
                e,
                column_name@,
                *data_type,
                value@,
            ),
        },
{
    match (value, data_type) {
        (Value::Null, _) => Ok(()),
        (Value::Int(_), DataType::Int) => Ok(()),
        (Value::String(_), DataType::Varchar(_)) => Ok(()),
        _ => {
            let mut column = String::new();
            push_str(&mut column, column_name);
            let expected = data_type_to_string(data_type);
            let mut got = String::new();
            proof {
                reveal_strlit("INT");
                reveal_strlit("STRING");
            }
            match value {
                Value::Int(_) => push_str(&mut got, "INT"),
                _ => push_str(&mut got, "STRING"),
            }
            assert(got@ =~= kind_text(value@));
            Err(StorageError::TypeMismatch { column, expected, got })
        },
    }
}

/// Checks a row against a table's columns: the count, then each value's kind
/// in order. Gives the line to append to the data file.
pub fn check_insert(schema: &CreateTableStatement, values: &[Value]) -> (r: Result<
    String,
    StorageError,
>)
    ensures
        insert_outcome(schema@.columns, values_model(values@), r),
{
    let ghost cols = schema@.columns;
    let ghost vals = values_model(values@);
    if values.len() != schema.columns.len() {
        return Err(
            StorageError::ColumnCountMismatch {
                expected: schema.columns.len(),
                got: values.len(),
            },
        );
    }
    let mut i: usize = 0;
    while i < values.len()
        invariant
            i <= values@.len(),
            values@.len() == schema.columns@.len(),
            cols == schema@.columns,
            vals == values_model(values@),
            forall|j: int| 0 <= j < i ==> fits(#[trigger] vals[j], cols[j].data_type),
        decreases values@.len() - i,
    {
        let col = &schema.columns[i];
        match validate_value_type(&values[i], &col.data_type, col.name.as_str()) {
            Ok(_) => {},
            Err(e) => {
                assert(first_misfit(cols, vals, i as int));
                return Err(e);
            },
        }
        i = i + 1;
    }
    assert(!exists|k: int| first_misfit(cols, vals, k));
    Ok(serialize_row(values))
}

impl View for Storage {
    type V = Seq<char>;

    /// The data directory.
    closed spec fn view(&self) -> Seq<char> {
        self.data_dir@
    }
}

impl Storage {
    /// An engine for the directory `data_dir`.
    pub fn new(data_dir: &str) -> (r: Storage)
        ensures
            r@ == data_dir@,
    {
        let mut d = String::new();
        push_str(&mut d, data_dir);
        Storage { data_dir: d }
    }

    pub fn data_dir(&self) -> (r: &str)
        ensures
            r@ == self@,
    {
        self.data_dir.as_str()
    }

    /// The path of the schema file of `table_name`.
    pub fn schema_path(&self, table_name: &str) -> (r: String)
        ensures
            r@ == joined(self@, table_name@ + schema_suffix()),
    {
        proof {
            reveal_strlit(".schema");
            assert(".schema"@ =~= schema_suffix());
        }
        join_path(&self.data_dir, &suffixed(table_name, ".schema"))
    }

    /// The path of the data file of `table_name`.
    pub fn data_path(&self, table_name: &str) -> (r: String)
        ensures
            r@ == joined(self@, table_name@ + data_suffix()),
    {
        proof {
            reveal_strlit(".data");
            assert(".data"@ =~= data_suffix());
        }
        join_path(&self.data_dir, &suffixed(table_name, ".data"))
    }

    /// Whether the schema file of `table_name` exists; its content is not read.
    pub fn table_exists(&self, table_name: &str) -> bool {
        path_exists(self.schema_path(table_name).as_str())
    }

    /// Creating a table: fails if its schema file exists, else gives the text
    /// to write to it (the data file is then created empty).
    pub fn create_table(&self, stmt: &CreateTableStatement, schema_exists: bool) -> (r: Result<
        String,
        StorageError,
    >)
        ensures
            schema_exists ==> (r matches Err(StorageError::TableAlreadyExists(n)) && n@
                == stmt.table_name@),
            !schema_exists ==> (r matches Ok(text) && text@ == schema_text(stmt@)),
    {
        if schema_exists {
            return Err(StorageError::TableAlreadyExists(stmt.table_name.clone()));
        }
        Ok(serialize_schema(stmt))
    }

    /// A table's schema, from its schema file's text (`None`: no such file).
    pub fn load_schema(&self, table_name: &str, schema_file: Option<&str>) -> (r: Result<
        CreateTableStatement,
        StorageError,
    >)
        ensures
            schema_file is None ==> (r matches Err(StorageError::TableNotFound(n)) && n@
                == table_name@),
            schema_file matches Some(c) ==> match r {
                Ok(s) => schema_of_text(table_name@, c@) == Some(s@),
                Err(e) => schema_of_text(table_name@, c@) is None && e is InvalidSchema,
            },
    {
        match schema_file {
            None => {
                let mut n = String::new();
                push_str(&mut n, table_name);
                Err(StorageError::TableNotFound(n))
            },
            Some(content) => parse_schema(table_name, content),
        }
    }

    /// Inserting a row: loads the schema from its file's text, then checks the
    /// values against it. Gives the line to append to the data file.
    pub fn insert_row(&self, stmt: &InsertStatement, schema_file: Option<&str>) -> (r: Result<
        String,
        StorageError,
    >)
        ensures
            schema_file is None ==> (r matches Err(StorageError::TableNotFound(n)) && n@
                == stmt.table_name@),
            schema_file matches Some(c) ==> match schema_of_text(stmt.table_name@, c@) {
                None => r matches Err(e) && e is InvalidSchema,
                Some(s) => insert_outcome(s.columns, values_model(stmt.values@), r),
            },
    {
        let schema = match self.load_schema(stmt.table_name.as_str(), schema_file) {
            Ok(s) => s,
            Err(e) => return Err(e),
        };
        check_insert(&schema, stmt.values.as_slice())
    }

    /// Reading a table's rows: fails if it has no schema file; no data file
    /// means no rows; else each non-blank line of the data file, in order.
    pub fn read_rows(&self, table_name: &str, schema_exists: bool, data_file: Option<&str>) -> (r:
        Result<Vec<Vec<Value>>, StorageError>)
        ensures
            !schema_exists ==> (r matches Err(StorageError::TableNotFound(n)) && n@
                == table_name@),
            schema_exists && data_file is None ==> (r matches Ok(rows) && rows@.len() == 0),
            schema_exists ==> (data_file matches Some(c) ==> match r {
                Ok(rows) => rows_of_text(c@) == Some(
                    rows@.map_values(|row: Vec<Value>| models(row@)),
                ),
                Err(e) => rows_of_text(c@) is None && e is InvalidData,
            }),
    {
        if !schema_exists {
            let mut n = String::new();
            push_str(&mut n, table_name);
            return Err(StorageError::TableNotFound(n));
        }
        match data_file {
            None => Ok(Vec::new()),
            Some(content) => decode_rows(content),
        }
    }

    /// Dropping a table: fails if it has no schema file; else both files are
    /// to be removed (a missing data file is no error).
    pub fn drop_table(&self, table_name: &str, schema_exists: bool) -> (r: Result<(), StorageError>)
        ensures
            !schema_exists ==> (r matches Err(StorageError::TableNotFound(n)) && n@
                == table_name@),
            schema_exists ==> r is Ok,
    {
        if !schema_exists {
            let mut n = String::new();
            push_str(&mut n, table_name);
            return Err(StorageError::TableNotFound(n));
        }
        Ok(())
    }

    /// The tables of the directory whose entries are `file_names`: the stem of
    /// each `.schema` file, in lexicographic order.
    pub fn list_tables(&self, file_names: &Vec<String>) -> (r: Vec<String>)
        ensures
            sorted(models(r@)),
            models(r@).to_multiset() == tables_of_files(models(file_names@)).to_multiset(),
    {
        let ghost fs = models(file_names@);
        let mut out: Vec<String> = Vec::new();
        let mut i: usize = 0;
        assert(models(out@) =~= Seq::<Seq<char>>::empty());
        assert(fs.take(0) =~= Seq::<Seq<char>>::empty());
        while i < file_names.len()
            invariant
                i <= file_names@.len(),
                fs == models(file_names@),
                sorted(models(out@)),
                models(out@).to_multiset() == tables_of_files(fs.take(i as int)).to_multiset(),
            decreases file_names@.len() - i,
        {
            proof {
                assert(fs.take(i + 1).drop_last() =~= fs.take(i as int));
                assert(fs.take(i + 1).last() == file_names@[i as int]@);
            }
            match table_name_of(&file_names[i]) {
                Some(t) => {
                    insert_sorted(&mut out, t);
                    proof {
                        let prev = tables_of_files(fs.take(i as int));
                        vstd::seq_lib::to_multiset_build(prev, table_of_file(fs[i as int])->0);
                    }
                },
                None => {},
            }
            i = i + 1;
        }
        assert(fs.take(file_names@.len() as int) =~= fs);
        out
    }
}

fn table_name_of(file: &String) -> (r: Option<String>)
    ensures
        match r {
            Some(t) => table_of_file(file@) == Some(t@),
            None => table_of_file(file@) is None,
        },
{
    proof {
        reveal_strlit(".schema");
        assert(".schema"@ =~= schema_suffix());
    }
    let f = crate::text::chars_of(file.as_str());
    let n = f.len();
    if n > 7 && crate::text::matches_at(&f, n - 7, ".schema") {
        assert(file@.skip(n - 7) =~= file@.subrange(n - 7, n as int));
        let t = string_of_range(&f, 0, n - 7);
        assert(t@ =~= file@.take(n - 7));
        Some(t)
    } else {
        assert(n > 7 ==> file@.skip(n - 7) =~= file@.subrange(n - 7, n as int));
        None
    }
}

fn insert_sorted(out: &mut Vec<String>, t: String)
    requires
        sorted(models(old(out)@)),
    ensures
        sorted(models(final(out)@)),
        models(final(out)@).to_multiset() == models(old(out)@).to_multiset().insert(t@),
{
    let ghost m = models(out@);
    let mut p: usize = 0;
    while p < out.len() && !crate::executor::text_less(&t, &out[p])
        invariant
            p <= out@.len(),
            m == models(out@),
            forall|q: int| 0 <= q < p ==> !text_lt(t@, #[trigger] m[q]),
        decreases out@.len() - p,
    {
        p = p + 1;
    }
    let ghost tv = t@;
    assert(p < m.len() ==> text_lt(tv, m[p as int]));
    out.insert(p, t);
    proof {
        let m2 = models(out@);
        assert(m2 =~= m.insert(p as int, tv));
        vstd::seq_lib::to_multiset_insert(m, p as int, tv);
        assert forall|i: int, j: int| 0 <= i < j < m2.len() implies !text_lt(
            #[trigger] m2[j],
            #[trigger] m2[i],
        ) by {
            if j < p {
                assert(m2[i] == m[i] && m2[j] == m[j]);
            } else if j == p {
                assert(m2[i] == m[i]);
            } else if i == p {
                assert(m2[j] == m[j - 1]);
                if text_lt(m[j - 1], tv) {
                    lemma_text_lt_transitive(m[j - 1], tv, m[p as int]);
                    if j - 1 > p {
                        assert(!text_lt(m[j - 1], m[p as int]));
                    } else {
                        lemma_text_lt_irreflexive(m[p as int]);
                    }
                }
            } else if i < p {
                assert(m2[i] == m[i] && m2[j] == m[j - 1]);
            } else {
                assert(m2[i] == m[i - 1] && m2[j] == m[j - 1]);
            }
        }
    }
}

} // verus!

verus! {

/// Inserting values whose count differs from the column count fails with
/// ColumnCountMismatch and gives no line to write; with the right count, a
/// string in an INT column or an integer in a VARCHAR column fails with
/// TypeMismatch and gives no line; NULL fits every column, so a row of NULLs
/// of the right count is accepted.
pub proof fn lemma_insert_validation(
    cols: Seq<ColumnModel>,
    vals: Seq<ValueModel>,
    r: Result<String, StorageError>,
)
    requires
        insert_outcome(cols, vals, r),
    ensures
        vals.len() != cols.len() ==> r matches Err(StorageError::ColumnCountMismatch { .. }),
        vals.len() == cols.len() && (exists|k: int|
            0 <= k < vals.len() && ((vals[k] is Str && cols[k].data_type is Int) || (
            vals[k] is Int && cols[k].data_type is Varchar))) ==> r matches Err(
            StorageError::TypeMismatch { .. },
        ),
        vals.len() == cols.len() && (forall|k: int| 0 <= k < vals.len() ==> vals[k] is Null) ==> r is Ok,
{
    if vals.len() == cols.len() {
        if exists|k: int|
            0 <= k < vals.len() && ((vals[k] is Str && cols[k].data_type is Int) || (
            vals[k] is Int && cols[k].data_type is Varchar)) {
            let k0 = choose|k: int|
                0 <= k < vals.len() && ((vals[k] is Str && cols[k].data_type is Int) || (
                vals[k] is Int && cols[k].data_type is Varchar));
            lemma_first_misfit_exists(cols, vals, k0);
        }
    }
}

proof fn lemma_first_misfit_exists(cols: Seq<ColumnModel>, vals: Seq<ValueModel>, k: int)
    requires
        0 <= k < vals.len(),
        !fits(vals[k], cols[k].data_type),
    ensures
        exists|m: int| first_misfit(cols, vals, m),
    decreases k,
{
    if forall|j: int| 0 <= j < k ==> fits(#[trigger] vals[j], cols[j].data_type) {
        assert(first_misfit(cols, vals, k));
    } else {
        let j = choose|j: int| 0 <= j < k && !fits(#[trigger] vals[j], cols[j].data_type);
        lemma_first_misfit_exists(cols, vals, j);
    }
}

/// A table whose data file is empty, or absent, reads as no rows, not as an error.
pub proof fn lemma_empty_table_reads_empty()
    ensures
        rows_of_text(Seq::empty()) == Some(Seq::<Seq<ValueModel>>::empty()),
{
}

} // verus!

verus! {

// ---------------------------------------------------------------------------
// Rewriting a table's rows: DELETE and UPDATE
// ---------------------------------------------------------------------------

pub open spec fn condition_model(p: Option<&Condition>) -> Option<ConditionModel> {
    match p {
        Some(c) => Some(c@),
        None => None,
    }
}

/// A row is chosen by the condition, or by its absence.
pub open spec fn chosen(cond: Option<ConditionModel>, row: Seq<ValueModel>, cols: Seq<ColumnModel>) -> bool {
    match cond {
        Some(c) => holds(c, row, cols),
        None => true,
    }
}

pub open spec fn chosen_count(
    rows: Seq<Seq<ValueModel>>,
    cond: Option<ConditionModel>,
    cols: Seq<ColumnModel>,
) -> nat
    decreases rows.len(),
{
    if rows.len() == 0 {
        0
    } else {
        chosen_count(rows.drop_last(), cond, cols) + if chosen(cond, rows.last(), cols) {
            1nat
        } else {
            0nat
        }
    }
}

/// The rows that a delete leaves, in order.
pub open spec fn rows_after_delete(
    rows: Seq<Seq<ValueModel>>,
    cond: Option<ConditionModel>,
    cols: Seq<ColumnModel>,
) -> Seq<Seq<ValueModel>>
    decreases rows.len(),
{
    if rows.len() == 0 {
        Seq::empty()
    } else {
        let rest = rows_after_delete(rows.drop_last(), cond, cols);
        if chosen(cond, rows.last(), cols) {
            rest
        } else {
            rest.push(rows.last())
        }
    }
}

pub open spec fn assignments_model(a: Seq<(String, Value)>) -> Seq<(Seq<char>, ValueModel)> {
    a.map_values(|p: (String, Value)| (p.0@, p.1@))
}

/// `row` with each assignment applied in order; one whose name no column has
/// changes nothing.
pub open spec fn assigned(
    row: Seq<ValueModel>,
    asg: Seq<(Seq<char>, ValueModel)>,
    cols: Seq<ColumnModel>,
) -> Seq<ValueModel>
    decreases asg.len(),
{
    if asg.len() == 0 {
        row
    } else {
        let r = assigned(row, asg.drop_last(), cols);
        match column_position(cols, asg.last().0) {
            Some(k) => r.update(k, asg.last().1),
            None => r,
        }
    }
}

pub open spec fn rows_after_update(
    rows: Seq<Seq<ValueModel>>,
    asg: Seq<(Seq<char>, ValueModel)>,
    cond: Option<ConditionModel>,
    cols: Seq<ColumnModel>,
) -> Seq<Seq<ValueModel>> {
    Seq::new(
        rows.len(),
        |i: int|
            if chosen(cond, rows[i], cols) {
                assigned(rows[i], asg, cols)
            } else {
                rows[i]
            },
    )
}

/// `k` is the first assignment to a column whose type its value does not fit.
pub open spec fn first_bad_assignment(
    asg: Seq<(Seq<char>, ValueModel)>,
    cols: Seq<ColumnModel>,
    k: int,
) -> bool {
    &&& 0 <= k < asg.len()
    &&& column_position(cols, asg[k].0) matches Some(c) && !fits(asg[k].1, cols[c].data_type)
    &&& forall|j: int|
        0 <= j < k ==> (column_position(cols, (#[trigger] asg[j]).0) matches Some(c) ==> fits(
            asg[j].1,
            cols[c].data_type,
        ))
}

/// The text of a data file that holds `rows`, one line each.
pub open spec fn data_text(rows: Seq<Seq<ValueModel>>) -> Seq<char>
    decreases rows.len(),
{
    if rows.len() == 0 {
        Seq::empty()
    } else {
        data_text(rows.drop_last()) + encode_row(rows.last()) + seq!['\n']
    }
}

/// The rows that a data file's text holds; no file holds none.
pub open spec fn stored_rows(data_file: Option<&str>) -> Option<Seq<Seq<ValueModel>>> {
    match data_file {
        Some(c) => rows_of_text(c@),
        None => Some(Seq::empty()),
    }
}

/// What a rewrite of the table's rows gives, before `rewrite` applies:
/// TableNotFound without a schema file, InvalidSchema or InvalidData where a
/// file does not read, or a row with fewer values than the table has columns.
pub open spec fn rewrite_outcome(
    table_name: Seq<char>,
    schema_file: Option<&str>,
    data_file: Option<&str>,
    r: Result<(String, usize), StorageError>,
    rewrite: spec_fn(SchemaModel, Seq<Seq<ValueModel>>, Result<(String, usize), StorageError>) -> bool,
) -> bool {
    match schema_file {
        None => r matches Err(StorageError::TableNotFound(n)) && n@ == table_name,
        Some(c) => match schema_of_text(table_name, c@) {
            None => r matches Err(e) && e is InvalidSchema,
            Some(s) => match stored_rows(data_file) {
                None => r matches Err(e) && e is InvalidData,
                Some(rows) => if !rows_fit(rows, s.columns.len() as int) {
                    r matches Err(e) && e is InvalidData
                } else {
                    rewrite(s, rows, r)
                },
            },
        },
    }
}

fn stored_rows_of(data_file: Option<&str>) -> (r: Result<Vec<Vec<Value>>, StorageError>)
    ensures
        match r {
            Ok(rows) => stored_rows(data_file) == Some(rows_model(rows@)),
            Err(e) => stored_rows(data_file) is None && e is InvalidData,
        },
{
    match data_file {
        Some(c) => {
            let r = decode_rows(c);
            match r {
                Ok(rows) => {
                    assert(rows_model(rows@) =~= rows@.map_values(|row: Vec<Value>| models(row@)));
                    Ok(rows)
                },
                Err(e) => Err(e),
            }
        },
        None => {
            let rows: Vec<Vec<Value>> = Vec::new();
            assert(rows_model(rows@) =~= Seq::<Seq<ValueModel>>::empty());
            Ok(rows)
        },
    }
}

fn check_rows_fit(rows: &Vec<Vec<Value>>, width: usize) -> (r: Result<(), StorageError>)
    ensures
        match r {
            Ok(_) => rows_fit(rows_model(rows@), width as int),
            Err(e) => !rows_fit(rows_model(rows@), width as int) && e is InvalidData,
        },
{
    let mut i: usize = 0;
    while i < rows.len()
        invariant
            i <= rows@.len(),
            forall|j: int| 0 <= j < i ==> (#[trigger] rows_model(rows@)[j]).len() >= width,
        decreases rows@.len() - i,
    {
        if rows[i].len() < width {
            assert(rows_model(rows@)[i as int].len() < width);
            let mut msg = String::new();
            push_str(&mut msg, "row with too few values");
            return Err(StorageError::InvalidData(msg));
        }
        assert(rows_model(rows@)[i as int] == models(rows@[i as int]@));
        i = i + 1;
    }
    Ok(())
}

fn push_row_line(out: &mut String, row: &Vec<Value>)
    ensures
        final(out)@ == old(out)@ + encode_row(models(row@)) + seq!['\n'],
{
    let line = serialize_row(row.as_slice());
    push_str(out, line.as_str());
    crate::text::push_char(out, '\n');
}

impl Storage {
    /// Deleting the rows that meet `predicate` (all rows without one): gives
    /// the new text of the data file, holding the other rows in order, and how
    /// many rows were deleted. On any error nothing is to be written.
    pub fn delete_rows(
        &self,
        table_name: &str,
        schema_file: Option<&str>,
        data_file: Option<&str>,
        predicate: Option<&Condition>,
    ) -> (r: Result<(String, usize), StorageError>)
        ensures
            rewrite_outcome(
                table_name@,
                schema_file,
                data_file,
                r,
                |s: SchemaModel, rows: Seq<Seq<ValueModel>>, r: Result<(String, usize), StorageError>|
                    r matches Ok((text, n)) && text@ == data_text(
                        rows_after_delete(rows, condition_model(predicate), s.columns),
                    ) && n == rows.len() - rows_after_delete(
                        rows,
                        condition_model(predicate),
                        s.columns,
                    ).len(),
            ),
    {
        let schema = self.load_schema(table_name, schema_file)?;
        let rows = stored_rows_of(data_file)?;
        check_rows_fit(&rows, schema.columns.len())?;
        let ghost cols = schema@.columns;
        let ghost rm = rows_model(rows@);
        let ghost cond = condition_model(predicate);
        let mut out = String::new();
        let mut left: usize = 0;
        let mut i: usize = 0;
        while i < rows.len()
            invariant
                i <= rows@.len(),
                rm == rows_model(rows@),
                cols == schema@.columns,
                cond == condition_model(predicate),
                rows_fit(rm, schema.columns@.len() as int),
                out@ == data_text(rows_after_delete(rm.take(i as int), cond, cols)),
                left == rows_after_delete(rm.take(i as int), cond, cols).len(),
                left <= i,
            decreases rows@.len() - i,
        {
            let row = &rows[i];
            proof {
                assert(rm.take(i + 1).drop_last() =~= rm.take(i as int));
                assert(rm.take(i + 1).last() == models(row@));
                assert(rm[i as int].len() >= schema.columns@.len());
            }
            let hit = match predicate {
                Some(c) => crate::executor::evaluate_condition(
                    c,
                    row.as_slice(),
                    schema.columns.as_slice(),
                ),
                None => true,
            };
            if !hit {
                let ghost kept = rows_after_delete(rm.take(i as int), cond, cols);
                push_row_line(&mut out, row);
                assert(kept.push(models(row@)).drop_last() =~= kept);
                left = left + 1;
            }
            i = i + 1;
        }
        assert(rm.take(rows@.len() as int) =~= rm);
        Ok((out, rows.len() - left))
    }

    /// Updating the rows that meet `predicate` (all rows without one): each
    /// assignment sets the first column of its name; one whose name no column
    /// has is ignored. Fails with TypeMismatch, for the first assignment whose
    /// value does not fit its column, whatever the rows. Gives the new text of
    /// the data file and how many rows were updated; on any error nothing is to
    /// be written.
    pub fn update_rows(
        &self,
        table_name: &str,
        schema_file: Option<&str>,
        data_file: Option<&str>,
        assignments: &Vec<(String, Value)>,
        predicate: Option<&Condition>,
    ) -> (r: Result<(String, usize), StorageError>)
        ensures
            rewrite_outcome(
                table_name@,
                schema_file,
                data_file,
                r,
                |s: SchemaModel, rows: Seq<Seq<ValueModel>>, r: Result<(String, usize), StorageError>|
                    if exists|k: int|
                        first_bad_assignment(assignments_model(assignments@), s.columns, k) {
                        exists|k: int|
                            first_bad_assignment(assignments_model(assignments@), s.columns, k)
                                && (r matches Err(e) && is_type_mismatch(
                                e,
                                assignments_model(assignments@)[k].0,
                                s.columns[column_position(
                                    s.columns,
                                    assignments_model(assignments@)[k].0,
                                )->0].data_type,
                                assignments_model(assignments@)[k].1,
                            ))
                    } else {
                        r matches Ok((text, n)) && text@ == data_text(
                            rows_after_update(
                                rows,
                                assignments_model(assignments@),
                                condition_model(predicate),
                                s.columns,
                            ),
                        ) && n == chosen_count(rows, condition_model(predicate), s.columns)
                    },
            ),
    {
        let ghost asg = assignments_model(assignments@);
        let schema = self.load_schema(table_name, schema_file)?;
        let rows = stored_rows_of(data_file)?;
        let width = schema.columns.len();
        check_rows_fit(&rows, width)?;
        let ghost cols = schema@.columns;
        let mut targets: Vec<usize> = Vec::new();
        let mut j: usize = 0;
        while j < assignments.len()
            invariant
                j <= assignments@.len(),
                asg == assignments_model(assignments@),
                cols == schema@.columns,
                width == schema.columns@.len(),
                rows_fit(rows_model(rows@), width as int),
                stored_rows(data_file) == Some(rows_model(rows@)),
                schema_file matches Some(c) && schema_of_text(table_name@, c@) == Some(schema@),
                targets@.len() == j,
                forall|m: int| 0 <= m < j ==> (column_position(cols, (#[trigger] asg[m]).0) matches Some(c)
                    ==> fits(asg[m].1, cols[c].data_type)),
                forall|m: int|
                    0 <= m < j ==> match column_position(cols, asg[m].0) {
                        Some(c) => #[trigger] targets@[m] == c,
                        None => targets@[m] == usize::MAX,
                    },
                forall|m: int|
                    0 <= m < j ==> (#[trigger] targets@[m] == usize::MAX || targets@[m]
                        < schema.columns@.len()),
            decreases assignments@.len() - j,
        {
            let name = &assignments[j].0;
            match crate::executor::find_column(schema.columns.as_slice(), name) {
                Some(c) => {
                    let col = &schema.columns[c];
                    match validate_value_type(&assignments[j].1, &col.data_type, name.as_str()) {
                        Ok(_) => {},
                        Err(e) => {
                            assert(first_bad_assignment(asg, cols, j as int));
                            assert(asg[j as int].0 == name@);
                            assert(column_position(cols, asg[j as int].0) == Some(c as int));
                            assert(cols[c as int].data_type == col.data_type);
                            return Err(e);
                        },
                    }
                    targets.push(c);
                },
                None => {
                    targets.push(usize::MAX);
                },
            }
            j = j + 1;
        }
        assert(!exists|k: int| first_bad_assignment(asg, cols, k));
        let ghost rm = rows_model(rows@);
        let ghost cond = condition_model(predicate);
        let mut out = String::new();
        let mut count: usize = 0;
        let mut i: usize = 0;
        while i < rows.len()
            invariant
                i <= rows@.len(),
                rm == rows_model(rows@),
                cols == schema@.columns,
                asg == assignments_model(assignments@),
                cond == condition_model(predicate),
                targets@.len() == assignments@.len(),
                forall|m: int|
                    0 <= m < targets@.len() ==> match column_position(cols, asg[m].0) {
                        Some(c) => #[trigger] targets@[m] == c,
                        None => targets@[m] == usize::MAX,
                    },
                forall|m: int|
                    0 <= m < targets@.len() ==> (#[trigger] targets@[m] == usize::MAX || targets@[m]
                        < schema.columns@.len()),
                rows_fit(rm, schema.columns@.len() as int),
                width == schema.columns@.len(),
                out@ == data_text(rows_after_update(rm.take(i as int), asg, cond, cols)),
                count == chosen_count(rm.take(i as int), cond, cols),
                count <= i,
            decreases rows@.len() - i,
        {
            let row = &rows[i];
            proof {
                assert(rm.take(i + 1).drop_last() =~= rm.take(i as int));
                assert(rm.take(i + 1).last() == models(row@));
                assert(rm[i as int].len() >= schema.columns@.len());
            }
            let hit = match predicate {
                Some(c) => crate::executor::evaluate_condition(
                    c,
                    row.as_slice(),
                    schema.columns.as_slice(),
                ),
                None => true,
            };
            let ghost before = rows_after_update(rm.take(i as int), asg, cond, cols);
            if hit {
                let mut changed: Vec<Value> = Vec::new();
                let mut k: usize = 0;
                while k < row.len()
                    invariant
                        k <= row@.len(),
                        models(changed@) == models(row@).take(k as int),
                    decreases row@.len() - k,
                {
                    let ghost prev = models(changed@);
                    let v = crate::executor::copy_value(&row[k]);
                    changed.push(v);
                    assert(models(changed@) =~= prev.push(v@));
                    assert(models(changed@) =~= models(row@).take(k + 1));
                    k = k + 1;
                }
                assert(models(row@).take(row@.len() as int) =~= models(row@));
                let mut a: usize = 0;
                while a < assignments.len()
                    invariant
                        a <= assignments@.len(),
                        asg == assignments_model(assignments@),
                        targets@.len() == assignments@.len(),
                        forall|m: int|
                            0 <= m < targets@.len() ==> match column_position(cols, asg[m].0) {
                                Some(c) => #[trigger] targets@[m] == c,
                                None => targets@[m] == usize::MAX,
                            },
                        forall|m: int|
                            0 <= m < targets@.len() ==> (#[trigger] targets@[m] == usize::MAX
                                || targets@[m] < schema.columns@.len()),
                        changed@.len() == row@.len(),
                        row@.len() >= schema.columns@.len(),
                        width == schema.columns@.len(),
                        cols == schema@.columns,
                        models(changed@) == assigned(models(row@), asg.take(a as int), cols),
                    decreases assignments@.len() - a,
                {
                    proof {
                        assert(asg.take(a + 1).drop_last() =~= asg.take(a as int));
                        assert(asg.take(a + 1).last() == asg[a as int]);
                    }
                    let t = targets[a];
                    proof {
                        if column_position(cols, asg[a as int].0) is Some {
                            let c = column_position(cols, asg[a as int].0)->0;
                            assert(is_first_match(cols, asg[a as int].0, c));
                            assert(targets@[a as int] == c);
                        }
                    }
                    if t != usize::MAX {
                        let ghost prev = models(changed@);
                        let v = crate::executor::copy_value(&assignments[a].1);
                        changed[t] = v;
                        assert(models(changed@) =~= prev.update(t as int, asg[a as int].1));
                    }
                    a = a + 1;
                }
                assert(asg.take(assignments@.len() as int) =~= asg);
                push_row_line(&mut out, &changed);
                count = count + 1;
            } else {
                push_row_line(&mut out, row);
            }
            proof {
                let after = rows_after_update(rm.take(i + 1), asg, cond, cols);
                assert(after.drop_last() =~= before);
            }
            i = i + 1;
        }
        assert(rm.take(rows@.len() as int) =~= rm);
        Ok((out, count))
    }
}

} // verus!
