use abcsql::ast::{ColumnDefinition, CreateTableStatement, DataType, Value};
use abcsql::codec::{
    data_type_to_string, decode_rows, deserialize_row, parse_data_type, parse_schema,
    serialize_row, serialize_schema,
};
use abcsql::storage::StorageError;

#[test]
fn test_serialize_deserialize_row() {
    let values = vec![
        Value::Int(42),
        Value::String("Hello World".to_string()),
        Value::Null,
        Value::Int(-100),
    ];

    let serialized = serialize_row(&values);
    let deserialized = deserialize_row(&serialized).unwrap();

    assert_eq!(values, deserialized);
}

#[test]
fn test_serialize_with_special_chars() {
    let values = vec![
        Value::String("Hello|World".to_string()), // Contains pipe
        Value::String("Line1\nLine2".to_string()), // Contains newline
        Value::String("Back\\slash".to_string()),  // Contains backslash
    ];

    let serialized = serialize_row(&values);
    let deserialized = deserialize_row(&serialized).unwrap();

    assert_eq!(values, deserialized);
}

#[test]
fn row_text_is_exact() {
    let values = vec![
        Value::Int(1),
        Value::String("a|b\\c\nd".to_string()),
        Value::Null,
        Value::Int(-7),
    ];
    assert_eq!(serialize_row(&values), "INT:1|STRING:a\\|b\\\\c\\nd|NULL|INT:-7");
}

#[test]
fn round_trip_keeps_tricky_strings() {
    let values = vec![
        Value::String("\\n is not a newline".to_string()),
        Value::String("ends with a backslash \\".to_string()),
        Value::String("".to_string()),
        Value::String("||".to_string()),
        Value::Int(i64::MIN),
        Value::Int(i64::MAX),
    ];
    let text = serialize_row(&values);
    assert!(!text.contains('\n'));
    assert_eq!(deserialize_row(&text).unwrap(), values);
}

#[test]
fn empty_row_round_trips() {
    let values: Vec<Value> = Vec::new();
    assert_eq!(serialize_row(&values), "");
    assert_eq!(deserialize_row("").unwrap(), values);
}

#[test]
fn malformed_fields_are_invalid_data() {
    assert!(matches!(deserialize_row("FOO"), Err(StorageError::InvalidData(_))));
    assert!(matches!(deserialize_row("INT:12x"), Err(StorageError::InvalidData(_))));
    assert!(matches!(deserialize_row("INT:"), Err(StorageError::InvalidData(_))));
    assert!(matches!(
        deserialize_row("INT:9223372036854775808"),
        Err(StorageError::InvalidData(_))
    ));
    assert!(matches!(deserialize_row("NULL|null"), Err(StorageError::InvalidData(_))));
}

#[test]
fn integer_fields_accept_a_sign() {
    assert_eq!(deserialize_row("INT:+5|INT:-0").unwrap(), vec![Value::Int(5), Value::Int(0)]);
}

#[test]
fn data_type_texts() {
    assert_eq!(data_type_to_string(&DataType::Int), "INT");
    assert_eq!(data_type_to_string(&DataType::Varchar(None)), "VARCHAR");
    assert_eq!(data_type_to_string(&DataType::Varchar(Some(255))), "VARCHAR(255)");
    assert_eq!(parse_data_type("INT").unwrap(), DataType::Int);
    assert_eq!(parse_data_type("VARCHAR").unwrap(), DataType::Varchar(None));
    assert_eq!(parse_data_type("VARCHAR(100)").unwrap(), DataType::Varchar(Some(100)));
    assert_eq!(parse_data_type("VARCHAR(+7)").unwrap(), DataType::Varchar(Some(7)));
    assert!(matches!(parse_data_type("TEXT"), Err(StorageError::InvalidSchema(_))));
    assert!(matches!(parse_data_type("VARCHAR()"), Err(StorageError::InvalidSchema(_))));
    assert!(matches!(parse_data_type("VARCHAR(-1)"), Err(StorageError::InvalidSchema(_))));
}

fn products() -> CreateTableStatement {
    CreateTableStatement {
        table_name: "products".to_string(),
        columns: vec![
            ColumnDefinition { name: "id".to_string(), data_type: DataType::Int },
            ColumnDefinition { name: "name".to_string(), data_type: DataType::Varchar(Some(100)) },
            ColumnDefinition { name: "description".to_string(), data_type: DataType::Varchar(None) },
        ],
    }
}

#[test]
fn schema_text_is_exact() {
    assert_eq!(
        serialize_schema(&products()),
        "products\nid:INT\nname:VARCHAR(100)\ndescription:VARCHAR\n"
    );
}

#[test]
fn schema_round_trips() {
    let schema = products();
    let text = serialize_schema(&schema);
    let loaded = parse_schema("products", &text).unwrap();
    assert_eq!(loaded, schema);
}

#[test]
fn schema_reading_skips_blank_lines_and_trims() {
    let loaded = parse_schema("t", "t\r\n\n  id:INT  \r\n\tname:VARCHAR(3)\n").unwrap();
    assert_eq!(loaded.columns.len(), 2);
    assert_eq!(loaded.columns[0].name, "id");
    assert_eq!(loaded.columns[1].data_type, DataType::Varchar(Some(3)));
}

#[test]
fn schema_errors_are_invalid_schema() {
    assert!(matches!(parse_schema("t", ""), Err(StorageError::InvalidSchema(_))));
    assert!(matches!(parse_schema("t", "other\nid:INT\n"), Err(StorageError::InvalidSchema(_))));
    assert!(matches!(parse_schema("t", "t\nid INT\n"), Err(StorageError::InvalidSchema(_))));
    assert!(matches!(parse_schema("t", "t\na:b:INT\n"), Err(StorageError::InvalidSchema(_))));
    assert!(matches!(parse_schema("t", "t\nid:FLOAT\n"), Err(StorageError::InvalidSchema(_))));
}

#[test]
fn data_file_rows_in_order() {
    let text = "INT:1|STRING:Alice\n\n   \nINT:2|STRING:Bob\r\n";
    let rows = decode_rows(text).unwrap();
    assert_eq!(
        rows,
        vec![
            vec![Value::Int(1), Value::String("Alice".to_string())],
            vec![Value::Int(2), Value::String("Bob\r".to_string())],
        ]
    );
    assert!(decode_rows("").unwrap().is_empty());
    assert!(matches!(decode_rows("INT:1\nBAD\n"), Err(StorageError::InvalidData(_))));
}
