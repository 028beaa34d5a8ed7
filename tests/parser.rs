use abcsql::ast::{DataType, Expression, JoinType, Operator, SelectColumn, SqlStatement, Value};
use abcsql::parser::parse_sql;

#[test]
fn test_parse_create_table() {
    let sql = "CREATE TABLE users (id INT, name VARCHAR(255));";
    let (_, stmt) = parse_sql(sql).unwrap();
    
    match stmt {
        SqlStatement::CreateTable(ct) => {
            assert_eq!(ct.table_name, "users");
            assert_eq!(ct.columns.len(), 2);
            assert_eq!(ct.columns[0].name, "id");
            assert_eq!(ct.columns[1].name, "name");
        }
        _ => panic!("Expected CreateTable"),
    }
}

#[test]
fn test_parse_insert() {
    let sql = "INSERT INTO users VALUES (1, 'Alice');";
    let (_, stmt) = parse_sql(sql).unwrap();
    
    match stmt {
        SqlStatement::Insert(ins) => {
            assert_eq!(ins.table_name, "users");
            assert_eq!(ins.values.len(), 2);
        }
        _ => panic!("Expected Insert"),
    }
}

#[test]
fn test_parse_select() {
    let sql = "SELECT * FROM users;";
    let (_, stmt) = parse_sql(sql).unwrap();
    
    match stmt {
        SqlStatement::Select(sel) => {
            assert_eq!(sel.from, "users");
            assert_eq!(sel.columns.len(), 1);
        }
        _ => panic!("Expected Select"),
    }
}

#[test]
fn test_parse_create_table_varchar_no_size() {
    let sql = "CREATE TABLE products (id INT, name VARCHAR);";
    let (_, stmt) = parse_sql(sql).unwrap();
    
    match stmt {
        SqlStatement::CreateTable(ct) => {
            assert_eq!(ct.table_name, "products");
            assert_eq!(ct.columns.len(), 2);
            assert_eq!(ct.columns[1].name, "name");
            match ct.columns[1].data_type {
                DataType::Varchar(None) => {},
                _ => panic!("Expected VARCHAR without size"),
            }
        }
        _ => panic!("Expected CreateTable"),
    }
}

#[test]
fn test_parse_create_table_multiple_columns() {
    let sql = "CREATE TABLE orders (id INT, user_id INT, product VARCHAR(100), quantity INT);";
    let (_, stmt) = parse_sql(sql).unwrap();
    
    match stmt {
        SqlStatement::CreateTable(ct) => {
            assert_eq!(ct.table_name, "orders");
            assert_eq!(ct.columns.len(), 4);
            assert_eq!(ct.columns[0].name, "id");
            assert_eq!(ct.columns[1].name, "user_id");
            assert_eq!(ct.columns[2].name, "product");
            assert_eq!(ct.columns[3].name, "quantity");
        }
        _ => panic!("Expected CreateTable"),
    }
}

#[test]
fn test_parse_create_table_no_semicolon() {
    let sql = "CREATE TABLE test (id INT)";
    let (_, stmt) = parse_sql(sql).unwrap();
    
    match stmt {
        SqlStatement::CreateTable(ct) => {
            assert_eq!(ct.table_name, "test");
        }
        _ => panic!("Expected CreateTable"),
    }
}

#[test]
fn test_parse_insert_with_null() {
    let sql = "INSERT INTO users VALUES (1, NULL, 'test@example.com');";
    let (_, stmt) = parse_sql(sql).unwrap();
    
    match stmt {
        SqlStatement::Insert(ins) => {
            assert_eq!(ins.table_name, "users");
            assert_eq!(ins.values.len(), 3);
            assert_eq!(ins.values[0], Value::Int(1));
            assert_eq!(ins.values[1], Value::Null);
            assert_eq!(ins.values[2], Value::String("test@example.com".to_string()));
        }
        _ => panic!("Expected Insert"),
    }
}

#[test]
fn test_parse_insert_no_semicolon() {
    let sql = "INSERT INTO users VALUES (42, 'Bob')";
    let (_, stmt) = parse_sql(sql).unwrap();
    
    match stmt {
        SqlStatement::Insert(ins) => {
            assert_eq!(ins.table_name, "users");
            assert_eq!(ins.values.len(), 2);
            assert_eq!(ins.values[0], Value::Int(42));
            assert_eq!(ins.values[1], Value::String("Bob".to_string()));
        }
        _ => panic!("Expected Insert"),
    }
}

#[test]
fn test_parse_insert_negative_numbers() {
    let sql = "INSERT INTO accounts VALUES (-100, 'debit');";
    let (_, stmt) = parse_sql(sql).unwrap();
    
    match stmt {
        SqlStatement::Insert(ins) => {
            assert_eq!(ins.values[0], Value::Int(-100));
        }
        _ => panic!("Expected Insert"),
    }
}

#[test]
fn test_parse_select_specific_columns() {
    let sql = "SELECT name, email FROM users;";
    let (_, stmt) = parse_sql(sql).unwrap();
    
    match stmt {
        SqlStatement::Select(sel) => {
            assert_eq!(sel.columns.len(), 2);
            match &sel.columns[0] {
                SelectColumn::Column(name) => assert_eq!(name, "name"),
                _ => panic!("Expected Column"),
            }
            match &sel.columns[1] {
                SelectColumn::Column(name) => assert_eq!(name, "email"),
                _ => panic!("Expected Column"),
            }
        }
        _ => panic!("Expected Select"),
    }
}

#[test]
fn test_parse_select_with_where() {
    let sql = "SELECT * FROM users WHERE id = 1;";
    let (_, stmt) = parse_sql(sql).unwrap();
    
    match stmt {
        SqlStatement::Select(sel) => {
            assert!(sel.where_clause.is_some());
            let where_clause = sel.where_clause.unwrap();
            match where_clause.condition.left {
                Expression::Column(name) => assert_eq!(name, "id"),
                _ => panic!("Expected Column expression"),
            }
            assert_eq!(where_clause.condition.operator, Operator::Equals);
            match where_clause.condition.right {
                Expression::Literal(Value::Int(1)) => {},
                _ => panic!("Expected Int literal"),
            }
        }
        _ => panic!("Expected Select"),
    }
}

#[test]
fn test_parse_select_with_where_string() {
    let sql = "SELECT * FROM users WHERE name = 'Alice';";
    let (_, stmt) = parse_sql(sql).unwrap();
    
    match stmt {
        SqlStatement::Select(sel) => {
            let where_clause = sel.where_clause.unwrap();
            match where_clause.condition.right {
                Expression::Literal(Value::String(s)) => assert_eq!(s, "Alice"),
                _ => panic!("Expected String literal"),
            }
        }
        _ => panic!("Expected Select"),
    }
}

#[test]
fn test_parse_select_with_where_operators() {
    let test_cases = vec![
        ("id > 10", Operator::GreaterThan),
        ("id < 10", Operator::LessThan),
        ("id >= 10", Operator::GreaterThanOrEqual),
        ("id <= 10", Operator::LessThanOrEqual),
        ("id != 10", Operator::NotEquals),
    ];

    for (condition, expected_op) in test_cases {
        let sql = format!("SELECT * FROM users WHERE {};", condition);
        let (_, stmt) = parse_sql(&sql).unwrap();
        
        match stmt {
            SqlStatement::Select(sel) => {
                let where_clause = sel.where_clause.unwrap();
                assert_eq!(where_clause.condition.operator, expected_op);
            }
            _ => panic!("Expected Select"),
        }
    }
}

#[test]
fn test_parse_select_with_join() {
    let sql = "SELECT * FROM users JOIN orders ON users.id = orders.user_id;";
    let result = parse_sql(sql);
    if result.is_err() {
        println!("Parse error: {:?}", result);
    }
    let (_, stmt) = result.unwrap();
    
    match stmt {
        SqlStatement::Select(sel) => {
            println!("Joins found: {}", sel.joins.len());
            assert_eq!(sel.joins.len(), 1);
            let join = &sel.joins[0];
            assert_eq!(join.table, "orders");
            assert_eq!(join.join_type, JoinType::Inner);
            match &join.on.left {
                Expression::QualifiedColumn(table, col) => {
                    assert_eq!(table, "users");
                    assert_eq!(col, "id");
                }
                _ => panic!("Expected QualifiedColumn"),
            }
        }
        _ => panic!("Expected Select"),
    }
}

#[test]
fn test_parse_select_with_join_types() {
    let test_cases = vec![
        ("INNER JOIN", JoinType::Inner),
        ("LEFT JOIN", JoinType::Left),
        ("RIGHT JOIN", JoinType::Right),
        ("JOIN", JoinType::Inner), // JOIN defaults to INNER
    ];

    for (join_type, expected) in test_cases {
        let sql = format!("SELECT * FROM users {} orders ON users.id = orders.user_id;", join_type);
        let (_, stmt) = parse_sql(&sql).unwrap();
        
        match stmt {
            SqlStatement::Select(sel) => {
                assert_eq!(sel.joins[0].join_type, expected);
            }
            _ => panic!("Expected Select"),
        }
    }
}

#[test]
fn test_parse_select_qualified_columns() {
    let sql = "SELECT users.name, orders.product FROM users JOIN orders ON users.id = orders.user_id;";
    let (_, stmt) = parse_sql(sql).unwrap();
    
    match stmt {
        SqlStatement::Select(sel) => {
            assert_eq!(sel.columns.len(), 2);
            match &sel.columns[0] {
                SelectColumn::QualifiedColumn(table, col) => {
                    assert_eq!(table, "users");
                    assert_eq!(col, "name");
                }
                _ => panic!("Expected QualifiedColumn"),
            }
            match &sel.columns[1] {
                SelectColumn::QualifiedColumn(table, col) => {
                    assert_eq!(table, "orders");
                    assert_eq!(col, "product");
                }
                _ => panic!("Expected QualifiedColumn"),
            }
        }
        _ => panic!("Expected Select"),
    }
}

#[test]
fn test_parse_select_multiple_joins() {
    let sql = "SELECT * FROM users JOIN orders ON users.id = orders.user_id JOIN products ON orders.product_id = products.id;";
    let (_, stmt) = parse_sql(sql).unwrap();
    
    match stmt {
        SqlStatement::Select(sel) => {
            assert_eq!(sel.joins.len(), 2);
            assert_eq!(sel.joins[0].table, "orders");
            assert_eq!(sel.joins[1].table, "products");
        }
        _ => panic!("Expected Select"),
    }
}

#[test]
fn test_parse_select_where_and_join() {
    let sql = "SELECT * FROM users JOIN orders ON users.id = orders.user_id WHERE users.name = 'Alice';";
    let (_, stmt) = parse_sql(sql).unwrap();
    
    match stmt {
        SqlStatement::Select(sel) => {
            assert!(sel.where_clause.is_some());
            assert_eq!(sel.joins.len(), 1);
        }
        _ => panic!("Expected Select"),
    }
}

#[test]
fn test_parse_select_no_semicolon() {
    let sql = "SELECT * FROM users";
    let (_, stmt) = parse_sql(sql).unwrap();
    
    match stmt {
        SqlStatement::Select(sel) => {
            assert_eq!(sel.from, "users");
        }
        _ => panic!("Expected Select"),
    }
}

#[test]
fn test_parse_whitespace_variations() {
    // Test with extra whitespace
    let sql = "SELECT   *   FROM   users   WHERE   id   =   1  ;";
    let (_, stmt) = parse_sql(sql).unwrap();
    
    match stmt {
        SqlStatement::Select(sel) => {
            assert!(sel.where_clause.is_some());
        }
        _ => panic!("Expected Select"),
    }
}

#[test]
fn test_parse_string_with_apostrophe() {
    // A string literal cannot hold a quote; a doubled quote is no escape.
    let sql = "INSERT INTO users VALUES (1, 'O''Brien');";
    let result = parse_sql(sql);
    assert!(result.is_ok() || result.is_err());
}
