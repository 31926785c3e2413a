use zqlite_rs::types::{resolve_column_types, ColumnType};

#[test]
fn test_column_type_from_str() {
    assert_eq!(ColumnType::from_str("boolean"), ColumnType::Boolean);
    assert_eq!(ColumnType::from_str("number"), ColumnType::Number);
    assert_eq!(ColumnType::from_str("string"), ColumnType::String);
    assert_eq!(ColumnType::from_str("json"), ColumnType::Json);
    assert_eq!(ColumnType::from_str("null"), ColumnType::Null);
    assert_eq!(ColumnType::from_str("unknown"), ColumnType::Null);
}

#[test]
fn resolve_column_types_defaults_to_string() {
    let columns = vec!["id".to_string(), "flag".to_string(), "meta".to_string()];
    let types = vec![
        ("flag".to_string(), ColumnType::Boolean),
        ("meta".to_string(), ColumnType::Json),
        ("flag".to_string(), ColumnType::Number),
    ];
    assert_eq!(
        resolve_column_types(&columns, &types),
        vec![ColumnType::String, ColumnType::Boolean, ColumnType::Json]
    );
}
