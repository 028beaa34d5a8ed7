use abcsql::ast::{DataType, Expression, SelectColumn, SqlStatement, Value};
use abcsql::parser::{parse_condition, parse_insert, parse_join, parse_sql};

#[test]
fn remainder_follows_the_statement() {
    let (rest, _) = parse_sql("  SELECT * FROM users;  extra").unwrap();
    assert_eq!(rest, "extra");
    let (rest, _) = parse_sql("SELECT * FROM users").unwrap();
    assert_eq!(rest, "");
}

#[test]
fn syntax_errors_carry_the_text() {
    let e = parse_sql("  DROP TABLE users").unwrap_err();
    assert_eq!(e.remaining, "DROP TABLE users");
    assert!(parse_sql("select * from users").is_err());
    assert!(parse_sql("CREATE TABLE t (id INT").is_err());
    assert!(parse_insert("INSERT INTO t VALUES (9223372036854775808)").is_err());
}

#[test]
fn integer_limits_and_empty_strings() {
    match parse_sql("INSERT INTO t VALUES (-9223372036854775808, '')").unwrap().1 {
        SqlStatement::Insert(ins) => {
            assert_eq!(ins.values, vec![Value::Int(i64::MIN), Value::String(String::new())]);
        }
        _ => panic!("Expected Insert"),
    }
    match parse_sql("INSERT INTO t VALUES (-9223372036854775808, +3)").unwrap().1 {
        SqlStatement::Insert(ins) => {
            assert_eq!(ins.values, vec![Value::Int(i64::MIN), Value::Int(3)]);
        }
        _ => panic!("Expected Insert"),
    }
}

#[test]
fn empty_lists_are_rejected() {
    assert!(parse_sql("CREATE TABLE t ()").is_err());
    assert!(parse_sql("INSERT INTO t VALUES ()").is_err());
    let (rest, _) = parse_insert("INSERT INTO t VALUES ('')").unwrap();
    assert_eq!(rest, "");
}

#[test]
fn varchar_sizes_and_identifiers() {
    match parse_sql("CREATE TABLE café_1 (naïve VARCHAR(18446744073709551615))").unwrap().1 {
        SqlStatement::CreateTable(ct) => {
            assert_eq!(ct.table_name, "café_1");
            assert_eq!(ct.columns[0].name, "naïve");
            assert_eq!(ct.columns[0].data_type, DataType::Varchar(Some(usize::MAX)));
        }
        _ => panic!("Expected CreateTable"),
    }
    assert!(parse_sql("CREATE TABLE _t (id INT)").is_err());
}

#[test]
fn null_in_a_condition_is_the_literal() {
    let (_, c) = parse_condition("name = NULL").unwrap();
    assert_eq!(c.right, Expression::Literal(Value::Null));
    let (_, c) = parse_condition("name = NULLS").unwrap();
    assert_eq!(c.right, Expression::Column("NULLS".to_string()));
    let (_, c) = parse_condition("id = -5").unwrap();
    assert_eq!(c.right, Expression::Literal(Value::Int(-5)));
}

#[test]
fn join_alias_and_condition() {
    let (rest, j) = parse_join(" LEFT JOIN orders o ON o.uid = id").unwrap();
    assert_eq!(rest, "");
    assert_eq!(j.alias, Some("o".to_string()));
    assert_eq!(j.table, "orders");
    assert!(parse_join("JOIN orders ON a = b").is_err());
}

#[test]
fn select_star_mixed_with_names() {
    match parse_sql("SELECT *, id FROM t").unwrap().1 {
        SqlStatement::Select(s) => {
            assert_eq!(s.columns, vec![SelectColumn::All, SelectColumn::Column("id".to_string())]);
        }
        _ => panic!("Expected Select"),
    }
}

#[test]
fn doubled_quote_is_no_escape() {
    assert!(parse_sql("INSERT INTO users VALUES (1, 'O''Brien');").is_err());
}
