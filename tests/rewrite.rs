use abcsql::ast::{Condition, Expression, Operator, Value};
use abcsql::storage::{Storage, StorageError};

const SCHEMA: &str = "users\nid:INT\nname:VARCHAR(255)\n";
const DATA: &str = "INT:1|STRING:Alice\nINT:2|STRING:Bob\nINT:3|NULL\n";

fn id_above(n: i64) -> Condition {
    Condition {
        left: Expression::Column("id".to_string()),
        operator: Operator::GreaterThan,
        right: Expression::Literal(Value::Int(n)),
    }
}

#[test]
fn delete_keeps_the_other_rows_in_order() {
    let storage = Storage::new("data");
    let cond = id_above(1);
    let (text, n) = storage.delete_rows("users", Some(SCHEMA), Some(DATA), Some(&cond)).unwrap();
    assert_eq!(text, "INT:1|STRING:Alice\n");
    assert_eq!(n, 2);
}

#[test]
fn delete_without_condition_empties_the_table() {
    let storage = Storage::new("data");
    let (text, n) = storage.delete_rows("users", Some(SCHEMA), Some(DATA), None).unwrap();
    assert_eq!(text, "");
    assert_eq!(n, 3);
    let (text, n) = storage.delete_rows("users", Some(SCHEMA), None, None).unwrap();
    assert_eq!(text, "");
    assert_eq!(n, 0);
}

#[test]
fn update_sets_chosen_rows() {
    let storage = Storage::new("data");
    let cond = id_above(2);
    let assignments = vec![
        ("name".to_string(), Value::String("Carol".to_string())),
        ("unknown".to_string(), Value::Int(5)),
    ];
    let (text, n) = storage
        .update_rows("users", Some(SCHEMA), Some(DATA), &assignments, Some(&cond))
        .unwrap();
    assert_eq!(text, "INT:1|STRING:Alice\nINT:2|STRING:Bob\nINT:3|STRING:Carol\n");
    assert_eq!(n, 1);
}

#[test]
fn update_with_misfit_value_is_rejected() {
    let storage = Storage::new("data");
    let assignments = vec![("id".to_string(), Value::String("x".to_string()))];
    let r = storage.update_rows("users", Some(SCHEMA), Some(DATA), &assignments, None);
    assert!(matches!(r, Err(StorageError::TypeMismatch { .. })));
}

#[test]
fn rewrites_report_missing_tables_and_bad_files() {
    let storage = Storage::new("data");
    assert!(matches!(
        storage.delete_rows("users", None, Some(DATA), None),
        Err(StorageError::TableNotFound(_))
    ));
    assert!(matches!(
        storage.delete_rows("users", Some(SCHEMA), Some("INT:1\n"), None),
        Err(StorageError::InvalidData(_))
    ));
    assert!(matches!(
        storage.update_rows("users", Some("x\n"), Some(DATA), &Vec::new(), None),
        Err(StorageError::InvalidSchema(_))
    ));
}
