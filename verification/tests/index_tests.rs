use db::{Column, DataType, Database, Row, TableSchema, Value};

#[test]
fn test_create_index_and_find() {
    let mut db = Database::create().unwrap();

    // Create a table
    let schema = TableSchema::new("users")
        .column(Column::new("id", DataType::Int32))
        .column(Column::new("name", DataType::Text))
        .column(Column::new("email", DataType::Text))
        .primary_key(&["id"]);
    db.create_table(schema).unwrap();

    // Insert some rows
    db.insert("users", Row::new(vec![
        Value::Int32(1),
        Value::Text("Alice".into()),
        Value::Text("alice@example.com".into()),
    ])).unwrap();
    db.insert("users", Row::new(vec![
        Value::Int32(2),
        Value::Text("Bob".into()),
        Value::Text("bob@example.com".into()),
    ])).unwrap();
    db.insert("users", Row::new(vec![
        Value::Int32(3),
        Value::Text("Alice".into()),
        Value::Text("alice2@example.com".into()),
    ])).unwrap();

    // Create an index on name column
    db.create_index("users", "idx_name", &["name"], false).unwrap();

    // Find by index
    let rows = db.find_by_index("users", "idx_name", &[Value::Text("Alice".into())]).unwrap();
    assert_eq!(rows.len(), 2);

    let rows = db.find_by_index("users", "idx_name", &[Value::Text("Bob".into())]).unwrap();
    assert_eq!(rows.len(), 1);
    assert_eq!(rows[0].values[0], Value::Int32(2));

    let rows = db.find_by_index("users", "idx_name", &[Value::Text("Charlie".into())]).unwrap();
    assert_eq!(rows.len(), 0);
}

#[test]
fn test_unique_index_constraint() {
    let mut db = Database::create().unwrap();

    let schema = TableSchema::new("users")
        .column(Column::new("id", DataType::Int32))
        .column(Column::new("email", DataType::Text))
        .primary_key(&["id"]);
    db.create_table(schema).unwrap();

    db.insert("users", Row::new(vec![
        Value::Int32(1),
        Value::Text("alice@example.com".into()),
    ])).unwrap();

    // Create a unique index on email
    db.create_index("users", "idx_email", &["email"], true).unwrap();

    // Try to insert a duplicate email - should fail
    let result = db.insert("users", Row::new(vec![
        Value::Int32(2),
        Value::Text("alice@example.com".into()),
    ]));
    assert!(result.is_err());

    // Insert with different email - should succeed
    db.insert("users", Row::new(vec![
        Value::Int32(2),
        Value::Text("bob@example.com".into()),
    ])).unwrap();
}

#[test]
fn test_index_maintenance_on_insert() {
    let mut db = Database::create().unwrap();

    let schema = TableSchema::new("users")
        .column(Column::new("id", DataType::Int32))
        .column(Column::new("name", DataType::Text))
        .primary_key(&["id"]);
    db.create_table(schema).unwrap();

    // Create index first
    db.create_index("users", "idx_name", &["name"], false).unwrap();

    // Insert rows AFTER index creation
    db.insert("users", Row::new(vec![
        Value::Int32(1),
        Value::Text("Alice".into()),
    ])).unwrap();
    db.insert("users", Row::new(vec![
        Value::Int32(2),
        Value::Text("Bob".into()),
    ])).unwrap();

    // Verify index works for newly inserted rows
    let rows = db.find_by_index("users", "idx_name", &[Value::Text("Alice".into())]).unwrap();
    assert_eq!(rows.len(), 1);
    assert_eq!(rows[0].values[0], Value::Int32(1));
}

#[test]
fn test_index_maintenance_on_delete() {
    let mut db = Database::create().unwrap();

    let schema = TableSchema::new("users")
        .column(Column::new("id", DataType::Int32))
        .column(Column::new("name", DataType::Text))
        .primary_key(&["id"]);
    db.create_table(schema).unwrap();

    db.insert("users", Row::new(vec![
        Value::Int32(1),
        Value::Text("Alice".into()),
    ])).unwrap();
    db.insert("users", Row::new(vec![
        Value::Int32(2),
        Value::Text("Alice".into()),
    ])).unwrap();

    db.create_index("users", "idx_name", &["name"], false).unwrap();

    // Verify both Alice entries exist
    let rows = db.find_by_index("users", "idx_name", &[Value::Text("Alice".into())]).unwrap();
    assert_eq!(rows.len(), 2);

    // Delete one
    db.delete("users", &[Value::Int32(1)]).unwrap();

    // Verify only one remains
    let rows = db.find_by_index("users", "idx_name", &[Value::Text("Alice".into())]).unwrap();
    assert_eq!(rows.len(), 1);
    assert_eq!(rows[0].values[0], Value::Int32(2));
}

#[test]
fn test_drop_index() {
    let mut db = Database::create().unwrap();

    let schema = TableSchema::new("users")
        .column(Column::new("id", DataType::Int32))
        .column(Column::new("name", DataType::Text))
        .primary_key(&["id"]);
    db.create_table(schema).unwrap();

    db.create_index("users", "idx_name", &["name"], false).unwrap();

    // Verify index exists
    assert!(db.get_schema("users").unwrap().get_index("idx_name").is_some());

    // Drop index
    db.drop_index("users", "idx_name").unwrap();

    // Verify index no longer exists
    assert!(db.get_schema("users").unwrap().get_index("idx_name").is_none());
}

#[test]
fn test_index_range_scan() {
    let mut db = Database::create().unwrap();

    let schema = TableSchema::new("users")
        .column(Column::new("id", DataType::Int32))
        .column(Column::new("score", DataType::Int32))
        .primary_key(&["id"]);
    db.create_table(schema).unwrap();

    // Insert rows
    for i in 0..10 {
        db.insert("users", Row::new(vec![
            Value::Int32(i),
            Value::Int32(i * 10),
        ])).unwrap();
    }

    // Create index on score
    db.create_index("users", "idx_score", &["score"], false).unwrap();

    // Range scan: scores from 30 to 60 (exclusive)
    let rows = db.index_range_scan(
        "users",
        "idx_score",
        Some(&[Value::Int32(30)]),
        Some(&[Value::Int32(60)]),
    ).unwrap();

    assert_eq!(rows.len(), 3); // scores 30, 40, 50
}
