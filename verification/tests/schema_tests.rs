use csv_sql_loader::errors::LoaderError;
use csv_sql_loader::schema::{infer_schema, ColumnSchema, InferenceConfig, TableSchema};
use csv_sql_loader::types::SqlType;

#[test]
fn test_column_schema_update() {
    let mut col = ColumnSchema::new("age".to_string());

    col.update("25");
    col.update("30");
    col.update("42");

    assert_eq!(col.sample_count, 3);
    assert_eq!(col.null_count, 0);
}

#[test]
fn test_column_schema_nullable() {
    let mut col = ColumnSchema::new("name".to_string());

    col.update("Alice");
    col.update("");
    col.update("Bob");

    col.finalize();

    assert!(col.nullable);
    assert_eq!(col.null_count, 1);
}

#[test]
fn test_table_schema_create_sql() {
    let mut schema = TableSchema::new(
        "users".to_string(),
        vec!["id".to_string(), "name".to_string(), "age".to_string()],
    );

    schema
        .update_row(&vec!["1".to_string(), "Alice".to_string(), "25".to_string()])
        .unwrap();
    schema
        .update_row(&vec!["2".to_string(), "Bob".to_string(), "30".to_string()])
        .unwrap();

    schema.finalize();

    let sql = schema.to_create_table_sql();
    assert!(sql.contains("CREATE TABLE users"));
    assert!(sql.contains("id SMALLINT NOT NULL"));
    assert!(sql.contains("name TEXT NOT NULL"));
    assert!(sql.contains("age SMALLINT NOT NULL"));
}

#[test]
fn test_validate_table_name() {
    assert!(TableSchema::validate_table_name("users").is_ok());
    assert!(TableSchema::validate_table_name("user_data").is_ok());
    assert!(TableSchema::validate_table_name("_temp").is_ok());

    assert!(TableSchema::validate_table_name("").is_err());
    assert!(TableSchema::validate_table_name("123users").is_err());
    assert!(TableSchema::validate_table_name("user-data").is_err());
    assert!(TableSchema::validate_table_name("SELECT").is_err());
}

#[test]
fn test_validate_table_name_case_insensitive_keywords() {
    assert!(TableSchema::validate_table_name("select").is_err());
    assert!(TableSchema::validate_table_name("Drop").is_err());
    assert!(TableSchema::validate_table_name("exec").is_err());
    // A keyword as a prefix is fine.
    assert!(TableSchema::validate_table_name("selection").is_ok());
}

#[test]
fn test_column_promotion_chain() {
    // Uniform 16-bit integers keep the narrowest tag.
    let mut col = ColumnSchema::new("n".to_string());
    col.update("1");
    col.update("-7");
    col.update("32767");
    assert_eq!(col.sql_type, SqlType::SmallInt);
    // One wider value promotes the whole column.
    col.update("32768");
    assert_eq!(col.sql_type, SqlType::Integer);
    // Non-numeric evidence falls all the way to text.
    col.update("oops");
    assert_eq!(col.sql_type, SqlType::Text);
}

#[test]
fn test_confidence_all_null_column_is_zero() {
    let mut col = ColumnSchema::new("c".to_string());
    col.update("");
    col.finalize();
    // Finalized all-null column: text weight times a zero non-null ratio.
    assert_eq!(col.sql_type, SqlType::Text);
    assert_eq!(col.confidence_permille(), 0);
}

#[test]
fn test_confidence_values() {
    let mut col = ColumnSchema::new("c".to_string());
    col.update("a b");
    col.update("c d");
    col.update("");
    col.update("");
    // Text weight 600 permille, half the samples null.
    assert_eq!(col.confidence_permille(), 300);

    let mut num = ColumnSchema::new("n".to_string());
    num.update("1");
    num.update("2");
    assert_eq!(num.confidence_permille(), 1000);

    let empty = ColumnSchema::new("e".to_string());
    assert_eq!(empty.confidence_permille(), 0);
}

#[test]
fn test_update_row_mismatch_message() {
    let mut schema = TableSchema::new("t".to_string(), vec!["a".to_string(), "b".to_string()]);
    let r = schema.update_row(&vec!["1".to_string(), "2".to_string(), "3".to_string()]);
    match r {
        Err(LoaderError::SchemaInferenceError(m)) => {
            assert_eq!(m, "Row has 3 columns but schema expects 2");
        }
        _ => panic!("expected a schema inference error"),
    }
}

#[test]
fn test_infer_schema_end_to_end() {
    let rows = vec![
        vec!["1".to_string(), "Alice".to_string()],
        vec!["2".to_string(), "Bob".to_string()],
        vec!["".to_string(), "Carol".to_string()],
    ];
    let config = InferenceConfig::new(100, true);
    let schema = infer_schema(
        "users".to_string(),
        vec!["id".to_string(), "name".to_string()],
        &rows,
        &config,
    )
    .unwrap();

    assert_eq!(schema.columns.len(), 2);
    assert_eq!(schema.columns[0].name, "id");
    assert_eq!(schema.columns[0].sql_type, SqlType::SmallInt);
    // The third row's empty id is a null, so the column is nullable.
    assert!(schema.columns[0].nullable);
    assert_eq!(schema.columns[1].name, "name");
    assert_eq!(schema.columns[1].sql_type, SqlType::Text);
    assert!(!schema.columns[1].nullable);

    let sql = schema.to_create_table_sql();
    assert_eq!(sql, "CREATE TABLE users (\n  id SMALLINT,\n  name TEXT NOT NULL\n);");
    assert_eq!(schema.column_names(), "id, name");
}

#[test]
fn test_infer_schema_empty_input() {
    let rows: Vec<Vec<String>> = vec![];
    let config = InferenceConfig::new(100, true);
    let r = infer_schema("t".to_string(), vec!["a".to_string()], &rows, &config);
    assert!(matches!(r, Err(LoaderError::EmptyFile)));
}

#[test]
fn test_infer_schema_sample_bound() {
    // Only the sampled prefix is observed.
    let rows = vec![
        vec!["1".to_string()],
        vec!["2".to_string()],
        vec!["not a number".to_string()],
    ];
    let config = InferenceConfig::new(2, true);
    let schema = infer_schema("t".to_string(), vec!["n".to_string()], &rows, &config).unwrap();
    assert_eq!(schema.columns[0].sql_type, SqlType::SmallInt);
    assert_eq!(schema.columns[0].sample_count, 2);
}
