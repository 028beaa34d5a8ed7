use vstd::prelude::*;

verus! {

/// A parsed SQL statement.
#[derive(Debug, PartialEq, Clone)]
pub enum SqlStatement {
    CreateTable(CreateTableStatement),
    Insert(InsertStatement),
    Select(SelectStatement),
}

/// `CREATE TABLE name (col TYPE, ...)`; also the schema of a stored table.
#[derive(Debug, PartialEq, Clone)]
pub struct CreateTableStatement {
    pub table_name: String,
    pub columns: Vec<ColumnDefinition>,
}

#[derive(Debug, PartialEq, Clone)]
pub struct ColumnDefinition {
    pub name: String,
    pub data_type: DataType,
}

/// A column type; the VARCHAR length is metadata only and is never enforced.
#[derive(Debug, PartialEq, Eq, Clone, Copy, Structural)]
pub enum DataType {
    Int,
    Varchar(Option<usize>),
}

#[derive(Debug, PartialEq, Clone)]
pub struct InsertStatement {
    pub table_name: String,
    pub values: Vec<Value>,
}

#[derive(Debug, PartialEq, Clone)]
pub struct SelectStatement {
    pub columns: Vec<SelectColumn>,
    pub from: String,
    pub where_clause: Option<WhereClause>,
    pub joins: Vec<JoinClause>,
}

#[derive(Debug, PartialEq, Clone)]
pub enum SelectColumn {
    All,
    Column(String),
    QualifiedColumn(String, String),
}

#[derive(Debug, PartialEq, Clone)]
pub struct WhereClause {
    pub condition: Condition,
}

#[derive(Debug, PartialEq, Clone)]
pub struct JoinClause {
    pub join_type: JoinType,
    pub table: String,
    pub alias: Option<String>,
    pub on: Condition,
}

#[derive(Debug, PartialEq, Eq, Clone, Copy, Structural)]
pub enum JoinType {
    Inner,
    Left,
    Right,
}

#[derive(Debug, PartialEq, Clone)]
pub struct Condition {
    pub left: Expression,
    pub operator: Operator,
    pub right: Expression,
}

#[derive(Debug, PartialEq, Clone)]
pub enum Expression {
    Column(String),
    QualifiedColumn(String, String),
    Literal(Value),
}

#[derive(Debug, PartialEq, Eq, Clone, Copy, Structural)]
pub enum Operator {
    Equals,
    NotEquals,
    GreaterThan,
    LessThan,
    GreaterThanOrEqual,
    LessThanOrEqual,
}

/// A cell value. `Null` is untyped and fits every column.
#[derive(Debug, PartialEq, Clone)]
pub enum Value {
    Int(i64),
    String(String),
    Null,
}

// ---------------------------------------------------------------------------
// Mathematical models of the AST: text becomes `Seq<char>`, vectors `Seq`.
// ---------------------------------------------------------------------------

pub enum ValueModel {
    Int(i64),
    Str(Seq<char>),
    Null,
}

pub struct ColumnModel {
    pub name: Seq<char>,
    pub data_type: DataType,
}

pub struct SchemaModel {
    pub table_name: Seq<char>,
    pub columns: Seq<ColumnModel>,
}

pub struct InsertModel {
    pub table_name: Seq<char>,
    pub values: Seq<ValueModel>,
}

pub enum SelectColumnModel {
    All,
    Column(Seq<char>),
    QualifiedColumn(Seq<char>, Seq<char>),
}

pub enum ExpressionModel {
    Column(Seq<char>),
    QualifiedColumn(Seq<char>, Seq<char>),
    Literal(ValueModel),
}

pub struct ConditionModel {
    pub left: ExpressionModel,
    pub operator: Operator,
    pub right: ExpressionModel,
}

pub struct JoinModel {
    pub join_type: JoinType,
    pub table: Seq<char>,
    pub alias: Option<Seq<char>>,
    pub on: ConditionModel,
}

pub struct SelectModel {
    pub columns: Seq<SelectColumnModel>,
    pub from: Seq<char>,
    pub where_clause: Option<ConditionModel>,
    pub joins: Seq<JoinModel>,
}

pub enum StatementModel {
    CreateTable(SchemaModel),
    Insert(InsertModel),
    Select(SelectModel),
}

impl View for Value {
    type V = ValueModel;

    open spec fn view(&self) -> ValueModel {
        match self {
            Value::Int(n) => ValueModel::Int(*n),
            Value::String(s) => ValueModel::Str(s@),
            Value::Null => ValueModel::Null,
        }
    }
}

impl View for ColumnDefinition {
    type V = ColumnModel;

    open spec fn view(&self) -> ColumnModel {
        ColumnModel { name: self.name@, data_type: self.data_type }
    }
}

impl View for CreateTableStatement {
    type V = SchemaModel;

    open spec fn view(&self) -> SchemaModel {
        SchemaModel { table_name: self.table_name@, columns: columns_model(self.columns@) }
    }
}

impl View for InsertStatement {
    type V = InsertModel;

    open spec fn view(&self) -> InsertModel {
        InsertModel { table_name: self.table_name@, values: values_model(self.values@) }
    }
}

impl View for SelectColumn {
    type V = SelectColumnModel;

    open spec fn view(&self) -> SelectColumnModel {
        match self {
            SelectColumn::All => SelectColumnModel::All,
            SelectColumn::Column(c) => SelectColumnModel::Column(c@),
            SelectColumn::QualifiedColumn(t, c) => SelectColumnModel::QualifiedColumn(t@, c@),
        }
    }
}

impl View for Expression {
    type V = ExpressionModel;

    open spec fn view(&self) -> ExpressionModel {
        match self {
            Expression::Column(c) => ExpressionModel::Column(c@),
            Expression::QualifiedColumn(t, c) => ExpressionModel::QualifiedColumn(t@, c@),
            Expression::Literal(v) => ExpressionModel::Literal(v@),
        }
    }
}

impl View for Condition {
    type V = ConditionModel;

    open spec fn view(&self) -> ConditionModel {
        ConditionModel { left: self.left@, operator: self.operator, right: self.right@ }
    }
}

impl View for WhereClause {
    type V = ConditionModel;

    open spec fn view(&self) -> ConditionModel {
        self.condition@
    }
}

impl View for JoinClause {
    type V = JoinModel;

    open spec fn view(&self) -> JoinModel {
        JoinModel {
            join_type: self.join_type,
            table: self.table@,
            alias: match self.alias {
                Some(a) => Some(a@),
                None => None,
            },
            on: self.on@,
        }
    }
}

impl View for SelectStatement {
    type V = SelectModel;

    open spec fn view(&self) -> SelectModel {
        SelectModel {
            columns: models(self.columns@),
            from: self.from@,
            where_clause: match self.where_clause {
                Some(w) => Some(w@),
                None => None,
            },
            joins: models(self.joins@),
        }
    }
}

impl View for SqlStatement {
    type V = StatementModel;

    open spec fn view(&self) -> StatementModel {
        match self {
            SqlStatement::CreateTable(c) => StatementModel::CreateTable(c@),
            SqlStatement::Insert(i) => StatementModel::Insert(i@),
            SqlStatement::Select(s) => StatementModel::Select(s@),
        }
    }
}

/// The models of a sequence's elements, in order.
pub open spec fn models<T: View>(v: Seq<T>) -> Seq<T::V> {
    v.map_values(|x: T| x@)
}

pub open spec fn values_model(vs: Seq<Value>) -> Seq<ValueModel> {
    models(vs)
}

pub open spec fn columns_model(cs: Seq<ColumnDefinition>) -> Seq<ColumnModel> {
    models(cs)
}

} // verus!
