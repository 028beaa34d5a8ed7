use abcsql::ast::{
    ColumnDefinition, Condition, CreateTableStatement, DataType, Expression, InsertStatement,
    Operator, SqlStatement, Value,
};
use abcsql::executor::{
    compare_values, evaluate_condition, execute_select, format_value, resolve_expression, TableRows,
};
use abcsql::parser::parse_sql;
use abcsql::storage::{check_insert, validate_value_type, Storage, StorageError};

fn users() -> CreateTableStatement {
    CreateTableStatement {
        table_name: "users".to_string(),
        columns: vec![
            ColumnDefinition { name: "id".to_string(), data_type: DataType::Int },
            ColumnDefinition { name: "name".to_string(), data_type: DataType::Varchar(Some(255)) },
        ],
    }
}

fn user_rows() -> Vec<Vec<Value>> {
    vec![
        vec![Value::Int(1), Value::String("Alice".to_string())],
        vec![Value::Int(2), Value::String("Bob".to_string())],
    ]
}

fn users_table() -> TableRows {
    TableRows { schema: users(), rows: user_rows() }
}

fn orders_table() -> TableRows {
    TableRows {
        schema: CreateTableStatement {
            table_name: "orders".to_string(),
            columns: vec![
                ColumnDefinition { name: "user_id".to_string(), data_type: DataType::Int },
                ColumnDefinition { name: "item".to_string(), data_type: DataType::Varchar(None) },
            ],
        },
        rows: vec![
            vec![Value::Int(2), Value::String("pen".to_string())],
            vec![Value::Int(2), Value::String("ink".to_string())],
            vec![Value::Int(7), Value::String("cup".to_string())],
        ],
    }
}

fn select(sql: &str) -> abcsql::ast::SelectStatement {
    match parse_sql(sql).unwrap().1 {
        SqlStatement::Select(s) => s,
        _ => panic!("Expected Select"),
    }
}

#[test]
fn where_filter_keeps_matching_rows() {
    let result = execute_select(&select("SELECT * FROM users WHERE id > 1"), &users_table(), &Vec::new());
    assert_eq!(result.columns, vec!["id".to_string(), "name".to_string()]);
    assert_eq!(result.rows, vec![vec![Value::Int(2), Value::String("Bob".to_string())]]);
}

#[test]
fn projection_in_requested_order_drops_unknown_names() {
    let result = execute_select(&select("SELECT name, missing, users.id FROM users"), &users_table(), &Vec::new());
    assert_eq!(result.columns, vec!["name".to_string(), "id".to_string()]);
    assert_eq!(
        result.rows,
        vec![
            vec![Value::String("Alice".to_string()), Value::Int(1)],
            vec![Value::String("Bob".to_string()), Value::Int(2)],
        ]
    );
}

#[test]
fn string_conditions_compare_lexicographically() {
    let result = execute_select(&select("SELECT id FROM users WHERE name < 'B'"), &users_table(), &Vec::new());
    assert_eq!(result.rows, vec![vec![Value::Int(1)]]);
    let result = execute_select(&select("SELECT id FROM users WHERE name >= 'Alicf'"), &users_table(), &Vec::new());
    assert_eq!(result.rows, vec![vec![Value::Int(2)]]);
}

#[test]
fn unresolvable_condition_excludes_rows() {
    let result = execute_select(&select("SELECT * FROM users WHERE age = 3"), &users_table(), &Vec::new());
    assert!(result.rows.is_empty());
    let result = execute_select(&select("SELECT * FROM users WHERE id = 'x'"), &users_table(), &Vec::new());
    assert!(result.rows.is_empty());
}

#[test]
fn null_equals_null_only_under_equals() {
    let schema = users().columns;
    let row = vec![Value::Int(1), Value::Null];
    let eq = Condition {
        left: Expression::Column("name".to_string()),
        operator: Operator::Equals,
        right: Expression::Literal(Value::Null),
    };
    let ne = Condition {
        left: Expression::Column("name".to_string()),
        operator: Operator::NotEquals,
        right: Expression::Literal(Value::Null),
    };
    assert!(evaluate_condition(&eq, &row, &schema));
    assert!(!evaluate_condition(&ne, &row, &schema));
    assert!(!compare_values(&Value::Null, &Operator::LessThanOrEqual, &Value::Null));
    assert!(!compare_values(&Value::Null, &Operator::Equals, &Value::Int(0)));
}

#[test]
fn comparisons_by_kind() {
    assert!(compare_values(&Value::Int(-3), &Operator::LessThan, &Value::Int(2)));
    assert!(compare_values(&Value::Int(2), &Operator::GreaterThanOrEqual, &Value::Int(2)));
    assert!(!compare_values(&Value::Int(1), &Operator::Equals, &Value::String("1".to_string())));
    assert!(compare_values(
        &Value::String("abc".to_string()),
        &Operator::LessThan,
        &Value::String("abd".to_string())
    ));
    assert!(compare_values(
        &Value::String("ab".to_string()),
        &Operator::LessThan,
        &Value::String("abc".to_string())
    ));
    assert!(compare_values(
        &Value::String("b".to_string()),
        &Operator::NotEquals,
        &Value::String("a".to_string())
    ));
}

#[test]
fn resolving_expressions() {
    let schema = users().columns;
    let row = vec![Value::Int(9), Value::String("Zed".to_string())];
    let q = Expression::QualifiedColumn("anything".to_string(), "name".to_string());
    assert_eq!(resolve_expression(&q, &row, &schema), Some(Value::String("Zed".to_string())));
    assert_eq!(resolve_expression(&Expression::Column("nope".to_string()), &row, &schema), None);
    assert_eq!(resolve_expression(&Expression::Literal(Value::Int(4)), &row, &schema), Some(Value::Int(4)));
}

#[test]
fn values_as_text() {
    assert_eq!(format_value(&Value::Int(-42)), "-42");
    assert_eq!(format_value(&Value::Int(0)), "0");
    assert_eq!(format_value(&Value::String("hi".to_string())), "hi");
    assert_eq!(format_value(&Value::Null), "NULL");
}

#[test]
fn insert_with_wrong_count_is_rejected() {
    let r = check_insert(&users(), &[Value::Int(1)]);
    assert!(matches!(r, Err(StorageError::ColumnCountMismatch { expected: 2, got: 1 })));
}

#[test]
fn insert_with_wrong_kind_is_rejected() {
    let r = check_insert(&users(), &[Value::String("x".to_string()), Value::String("y".to_string())]);
    match r {
        Err(StorageError::TypeMismatch { column, expected, got }) => {
            assert_eq!(column, "id");
            assert_eq!(expected, "INT");
            assert_eq!(got, "STRING");
        }
        _ => panic!("Expected TypeMismatch"),
    }
    let r = check_insert(&users(), &[Value::Int(1), Value::Int(2)]);
    assert!(matches!(r, Err(StorageError::TypeMismatch { .. })));
}

#[test]
fn insert_of_nulls_is_accepted() {
    let line = check_insert(&users(), &[Value::Null, Value::Null]).unwrap();
    assert_eq!(line, "NULL|NULL");
    assert!(validate_value_type(&Value::Null, &DataType::Int, "id").is_ok());
}

#[test]
fn insert_row_gives_the_line_to_append() {
    let storage = Storage::new("data");
    let schema_text = "users\nid:INT\nname:VARCHAR(255)\n";
    let stmt = InsertStatement {
        table_name: "users".to_string(),
        values: vec![Value::Int(1), Value::String("Alice".to_string())],
    };
    assert_eq!(storage.insert_row(&stmt, Some(schema_text)).unwrap(), "INT:1|STRING:Alice");
    assert!(matches!(storage.insert_row(&stmt, Some("")), Err(StorageError::InvalidSchema(_))));
}

#[test]
fn unknown_table_is_not_found() {
    let storage = Storage::new("data");
    assert!(matches!(storage.load_schema("ghost", None), Err(StorageError::TableNotFound(_))));
    assert!(matches!(storage.read_rows("ghost", false, None), Err(StorageError::TableNotFound(_))));
    assert!(matches!(storage.drop_table("ghost", false), Err(StorageError::TableNotFound(_))));
    let stmt = InsertStatement { table_name: "ghost".to_string(), values: vec![Value::Int(1)] };
    match storage.insert_row(&stmt, None) {
        Err(StorageError::TableNotFound(name)) => assert_eq!(name, "ghost"),
        _ => panic!("Expected TableNotFound"),
    }
}

#[test]
fn second_create_is_rejected() {
    let storage = Storage::new("data");
    let text = storage.create_table(&users(), false).unwrap();
    assert_eq!(text, "users\nid:INT\nname:VARCHAR(255)\n");
    match storage.create_table(&users(), true) {
        Err(StorageError::TableAlreadyExists(name)) => assert_eq!(name, "users"),
        _ => panic!("Expected TableAlreadyExists"),
    }
}

#[test]
fn table_without_inserts_reads_empty() {
    let storage = Storage::new("data");
    assert!(storage.read_rows("users", true, Some("")).unwrap().is_empty());
    assert!(storage.read_rows("users", true, None).unwrap().is_empty());
    assert!(storage.drop_table("users", true).is_ok());
}

#[test]
fn file_paths() {
    assert_eq!(Storage::new("data").schema_path("users"), "data/users.schema");
    assert_eq!(Storage::new("data/").data_path("users"), "data/users.data");
    assert_eq!(Storage::new("").schema_path("t"), "t.schema");
    assert_eq!(Storage::new("data").data_dir(), "data");
}

#[test]
fn missing_directory_has_no_tables() {
    let storage = Storage::new("/nonexistent/abcsql/dir");
    assert!(!storage.table_exists("users"));
}

#[test]
fn tables_listed_in_order() {
    let storage = Storage::new("data");
    let names: Vec<String> = vec!["users.schema", "users.data", "orders.schema", ".schema", "notes.txt", "a.b.schema"]
        .into_iter()
        .map(|s| s.to_string())
        .collect();
    assert_eq!(
        storage.list_tables(&names),
        vec!["a.b".to_string(), "orders".to_string(), "users".to_string()]
    );
    assert!(storage.list_tables(&Vec::new()).is_empty());
}

#[test]
fn inner_join_pairs_matching_rows() {
    let stmt = select("SELECT name, item FROM users JOIN orders ON users.id = orders.user_id");
    let result = execute_select(&stmt, &users_table(), &vec![orders_table()]);
    assert_eq!(result.columns, vec!["name".to_string(), "item".to_string()]);
    assert_eq!(
        result.rows,
        vec![
            vec![Value::String("Bob".to_string()), Value::String("pen".to_string())],
            vec![Value::String("Bob".to_string()), Value::String("ink".to_string())],
        ]
    );
}

#[test]
fn left_join_keeps_unpaired_left_rows() {
    let stmt = select("SELECT name, item FROM users LEFT JOIN orders ON id = user_id");
    let result = execute_select(&stmt, &users_table(), &vec![orders_table()]);
    assert_eq!(
        result.rows,
        vec![
            vec![Value::String("Alice".to_string()), Value::Null],
            vec![Value::String("Bob".to_string()), Value::String("pen".to_string())],
            vec![Value::String("Bob".to_string()), Value::String("ink".to_string())],
        ]
    );
}

#[test]
fn right_join_appends_unpaired_right_rows() {
    let stmt = select("SELECT * FROM users RIGHT JOIN orders ON id = user_id WHERE item != 'ink'");
    let result = execute_select(&stmt, &users_table(), &vec![orders_table()]);
    assert_eq!(result.columns.len(), 4);
    assert_eq!(
        result.rows,
        vec![
            vec![
                Value::Int(2),
                Value::String("Bob".to_string()),
                Value::Int(2),
                Value::String("pen".to_string()),
            ],
            vec![Value::Null, Value::Null, Value::Int(7), Value::String("cup".to_string())],
        ]
    );
}

#[test]
fn where_null_matches_null_cells() {
    let table = TableRows { schema: users(), rows: vec![vec![Value::Int(1), Value::Null]] };
    let eq = execute_select(&select("SELECT id FROM users WHERE name = NULL"), &table, &Vec::new());
    assert_eq!(eq.rows, vec![vec![Value::Int(1)]]);
    let ne = execute_select(&select("SELECT id FROM users WHERE name != NULL"), &table, &Vec::new());
    assert!(ne.rows.is_empty());
}

#[test]
fn uneven_rows_resolve_what_they_hold() {
    let schema = users().columns;
    let short = vec![Value::Int(5)];
    let cond = Condition {
        left: Expression::Column("id".to_string()),
        operator: Operator::Equals,
        right: Expression::Literal(Value::Int(5)),
    };
    assert!(evaluate_condition(&cond, &short, &schema));
    assert_eq!(resolve_expression(&Expression::Column("name".to_string()), &short, &schema), None);
    let table = TableRows {
        schema: users(),
        rows: vec![vec![Value::Int(1), Value::String("A".to_string()), Value::Int(9)]],
    };
    let result = execute_select(&select("SELECT * FROM users"), &table, &Vec::new());
    assert_eq!(result.rows, vec![vec![Value::Int(1), Value::String("A".to_string())]]);
}

#[test]
fn inserted_row_reads_back_through_the_data_file() {
    let storage = Storage::new("data");
    let schema_text = "users\nid:INT\nname:VARCHAR(255)\n";
    let values = vec![Value::Int(3), Value::String("ends in cr\r".to_string())];
    let stmt = InsertStatement { table_name: "users".to_string(), values: values.clone() };
    let mut data = String::from("INT:1|STRING:Alice\n");
    data.push_str(&storage.insert_row(&stmt, Some(schema_text)).unwrap());
    data.push('\n');
    let rows = storage.read_rows("users", true, Some(&data)).unwrap();
    assert_eq!(rows, vec![vec![Value::Int(1), Value::String("Alice".to_string())], values]);
}
