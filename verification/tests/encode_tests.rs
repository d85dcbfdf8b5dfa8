use csv_sql_loader::encode::{encode_batch, encode_field, encode_row};
use csv_sql_loader::errors::LoaderError;
use csv_sql_loader::schema::{ColumnSchema, TableSchema};
use csv_sql_loader::types::SqlType;

fn create_test_schema() -> TableSchema {
    TableSchema {
        table_name: "test_table".to_string(),
        columns: vec![
            ColumnSchema {
                name: "id".to_string(),
                sql_type: SqlType::Integer,
                nullable: false,
                sample_count: 0,
                null_count: 0,
            },
            ColumnSchema {
                name: "name".to_string(),
                sql_type: SqlType::Text,
                nullable: true,
                sample_count: 0,
                null_count: 0,
            },
        ],
    }
}

#[test]
fn test_rows_to_csv() {
    let schema = create_test_schema();

    let rows = vec![
        vec!["1".to_string(), "Alice".to_string()],
        vec!["2".to_string(), "Bob".to_string()],
    ];

    let payload = encode_batch(&rows, schema.columns.len()).unwrap();
    assert_eq!(payload, "1,Alice\n2,Bob\n");
}

#[test]
fn test_quoting_round_trip_example() {
    // The canonical quoting example: a field with a comma and a quote.
    assert_eq!(encode_field("a,b\"c"), "\"a,b\"\"c\"");
    // Reading the token back with CSV rules reproduces the field exactly.
    let token = encode_field("a,b\"c");
    let stripped = &token[1..token.len() - 1];
    let decoded = stripped.replace("\"\"", "\"");
    assert_eq!(decoded, "a,b\"c");
}

#[test]
fn test_field_quoting_rules() {
    // Empty stays empty: the payload's null token.
    assert_eq!(encode_field(""), "");
    // Plain text passes through unquoted.
    assert_eq!(encode_field("plain"), "plain");
    // Each special character forces quotes.
    assert_eq!(encode_field("a,b"), "\"a,b\"");
    assert_eq!(encode_field("a\nb"), "\"a\nb\"");
    assert_eq!(encode_field("\""), "\"\"\"\"");
}

#[test]
fn test_encode_row_joins_fields() {
    let row = vec!["1".to_string(), "".to_string(), "x,y".to_string()];
    assert_eq!(encode_row(&row), "1,,\"x,y\"");
}

#[test]
fn test_encode_batch_field_count_error() {
    let rows = vec![
        vec!["1".to_string(), "Alice".to_string()],
        vec!["2".to_string()],
    ];
    let r = encode_batch(&rows, 2);
    match r {
        Err(LoaderError::TypeConversionError(m)) => {
            assert_eq!(m, "Row has 1 columns but expected 2");
        }
        _ => panic!("expected a type conversion error"),
    }
}

#[test]
fn test_encode_empty_batch() {
    let rows: Vec<Vec<String>> = vec![];
    assert_eq!(encode_batch(&rows, 3).unwrap(), "");
}
