use db::{Column, DataType, Database, DbError, JoinType, Row, TableSchema, Value};

fn users_db() -> Database {
    let mut db = Database::create().unwrap();
    let schema = TableSchema::new("users")
        .column(Column::new("id", DataType::Int32))
        .column(Column::new("name", DataType::Text))
        .primary_key(&["id"]);
    db.create_table(schema).unwrap();
    db
}

fn user(id: i32, name: &str) -> Row {
    Row::new(vec![Value::Int32(id), Value::Text(name.to_string())])
}

#[test]
fn new_database_has_header_page_only() {
    let db = Database::create().unwrap();
    assert_eq!(db.total_pages(), 1);
    assert!(db.list_tables().is_empty());
    assert_eq!(&db.file_image()[0..4], b"BPDB");
}

#[test]
fn create_table_twice_is_already_exists() {
    let mut db = users_db();
    let again = TableSchema::new("users").column(Column::new("id", DataType::Int32));
    assert_eq!(db.create_table(again).unwrap_err(), DbError::AlreadyExists);
    assert_eq!(db.list_tables(), vec!["users"]);
    let schema = db.get_schema("users").unwrap();
    assert!(schema.root_page > 0);
    assert_eq!(schema.row_count, 0);
}

#[test]
fn new_table_holds_no_rows() {
    let mut db = users_db();
    let other = TableSchema::new("posts")
        .column(Column::new("id", DataType::Int64))
        .primary_key(&["id"]);
    db.create_table(other).unwrap();
    assert_eq!(db.get_schema("users").unwrap().root_page, 1);
    assert_eq!(db.get_schema("posts").unwrap().root_page, 3);
    assert!(db.scan("users").unwrap().is_empty());
    assert!(db.scan("posts").unwrap().is_empty());
    assert!(db.get("posts", &[Value::Int64(7)]).unwrap().is_none());
}

#[test]
fn insert_then_get_by_primary_key() {
    let mut db = users_db();
    db.insert("users", user(1, "Alice")).unwrap();
    db.insert("users", user(2, "Bob")).unwrap();
    let row = db.get("users", &[Value::Int32(2)]).unwrap().unwrap();
    assert_eq!(row.values, vec![Value::Int32(2), Value::Text("Bob".into())]);
    assert!(db.get("users", &[Value::Int32(3)]).unwrap().is_none());
    assert_eq!(db.get_schema("users").unwrap().row_count, 2);
}

#[test]
fn insert_errors() {
    let mut db = users_db();
    assert_eq!(db.insert("nobody", user(1, "x")).unwrap_err(), DbError::NotFound);
    assert_eq!(db.insert("users", Row::new(vec![Value::Int32(1)])).unwrap_err(), DbError::InvalidInput);
    assert_eq!(db.get("nobody", &[Value::Int32(1)]).unwrap_err(), DbError::NotFound);
    assert_eq!(db.scan("nobody").unwrap_err(), DbError::NotFound);
    assert_eq!(db.delete("nobody", &[Value::Int32(1)]).unwrap_err(), DbError::NotFound);
}

#[test]
fn insert_same_key_replaces_row() {
    let mut db = users_db();
    db.insert("users", user(1, "Alice")).unwrap();
    db.insert("users", user(1, "Alicia")).unwrap();
    let rows = db.scan("users").unwrap();
    assert_eq!(rows.len(), 1);
    assert_eq!(rows[0].values[1], Value::Text("Alicia".into()));
}

#[test]
fn scan_returns_rows_in_key_order() {
    let mut db = users_db();
    for id in [5, 1, 4, 2, 3] {
        db.insert("users", user(id, "n")).unwrap();
    }
    let ids: Vec<Value> = db.scan("users").unwrap().into_iter().map(|r| r.values[0].clone()).collect();
    assert_eq!(ids, vec![Value::Int32(1), Value::Int32(2), Value::Int32(3), Value::Int32(4), Value::Int32(5)]);
}

#[test]
fn many_rows_survive_leaf_splits() {
    let mut db = users_db();
    for id in 0..200 {
        db.insert("users", user(id, &format!("user{}", id))).unwrap();
    }
    let rows = db.scan("users").unwrap();
    assert_eq!(rows.len(), 200);
    for id in [0, 31, 99, 150, 199] {
        let row = db.get("users", &[Value::Int32(id)]).unwrap().unwrap();
        assert_eq!(row.values[1], Value::Text(format!("user{}", id)));
    }
    assert!(db.total_pages() > 3);
}

#[test]
fn delete_removes_row_once() {
    let mut db = users_db();
    db.insert("users", user(1, "Alice")).unwrap();
    db.insert("users", user(2, "Bob")).unwrap();
    assert!(db.delete("users", &[Value::Int32(1)]).unwrap());
    assert!(!db.delete("users", &[Value::Int32(1)]).unwrap());
    assert!(db.get("users", &[Value::Int32(1)]).unwrap().is_none());
    assert_eq!(db.scan("users").unwrap().len(), 1);
    assert_eq!(db.get_schema("users").unwrap().row_count, 1);
}

#[test]
fn range_scan_is_half_open() {
    let mut db = users_db();
    for id in 0..10 {
        db.insert("users", user(id, "n")).unwrap();
    }
    let rows = db.range_scan("users", Some(&[Value::Int32(3)]), Some(&[Value::Int32(6)])).unwrap();
    let ids: Vec<Value> = rows.into_iter().map(|r| r.values[0].clone()).collect();
    assert_eq!(ids, vec![Value::Int32(3), Value::Int32(4), Value::Int32(5)]);
    assert_eq!(db.range_scan("users", None, Some(&[Value::Int32(2)])).unwrap().len(), 2);
    assert_eq!(db.range_scan("users", Some(&[Value::Int32(8)]), None).unwrap().len(), 2);
    assert_eq!(db.range_scan("users", None, None).unwrap().len(), 10);
}

#[test]
fn range_scan_compares_key_values_not_bytes() {
    let mut db = users_db();
    for id in [1, 255, 256, 299, 300, 500, -4] {
        db.insert("users", user(id, "n")).unwrap();
    }
    let rows = db.range_scan("users", Some(&[Value::Int32(1)]), Some(&[Value::Int32(300)])).unwrap();
    let mut ids: Vec<i32> = rows
        .into_iter()
        .map(|r| match r.values[0] {
            Value::Int32(x) => x,
            _ => panic!("not an Int32 key"),
        })
        .collect();
    ids.sort();
    assert_eq!(ids, vec![1, 255, 256, 299]);
    let below = db.range_scan("users", None, Some(&[Value::Int32(0)])).unwrap();
    assert_eq!(below.len(), 1);
    assert_eq!(below[0].values[0], Value::Int32(-4));
}

#[test]
fn drop_table_forgets_it() {
    let mut db = users_db();
    db.insert("users", user(1, "Alice")).unwrap();
    db.drop_table("users").unwrap();
    assert!(db.get_schema("users").is_none());
    assert_eq!(db.drop_table("users").unwrap_err(), DbError::NotFound);
    assert!(db.list_tables().is_empty());
}

#[test]
fn add_column_appends_and_rejects_duplicates() {
    let mut db = users_db();
    db.add_column("users", Column::new("age", DataType::Int32)).unwrap();
    let schema = db.get_schema("users").unwrap();
    assert_eq!(schema.columns.len(), 3);
    assert_eq!(schema.columns[2].name, "age");
    assert_eq!(db.add_column("users", Column::new("age", DataType::Int32)).unwrap_err(), DbError::AlreadyExists);
    assert_eq!(db.add_column("nobody", Column::new("x", DataType::Int32)).unwrap_err(), DbError::NotFound);
}

#[test]
fn auto_increment_fills_null_keys() {
    let mut db = Database::create().unwrap();
    let mut id = Column::new("id", DataType::Int64);
    id.auto_increment = true;
    let schema = TableSchema::new("items")
        .column(id)
        .column(Column::new("label", DataType::Text))
        .primary_key(&["id"]);
    db.create_table(schema).unwrap();
    db.insert("items", Row::new(vec![Value::Null, Value::Text("a".into())])).unwrap();
    db.insert("items", Row::new(vec![Value::Null, Value::Text("b".into())])).unwrap();
    let rows = db.scan("items").unwrap();
    assert_eq!(rows.len(), 2);
    assert_eq!(rows[0].values[0], Value::Int64(1));
    assert_eq!(rows[1].values[0], Value::Int64(2));
    assert_eq!(db.get_schema("items").unwrap().auto_increment, 3);
}

#[test]
fn auto_increment_rejects_text_column() {
    let mut db = Database::create().unwrap();
    let mut id = Column::new("id", DataType::Text);
    id.auto_increment = true;
    let schema = TableSchema::new("items").column(id).primary_key(&["id"]);
    db.create_table(schema).unwrap();
    assert_eq!(db.insert("items", Row::new(vec![Value::Null])).unwrap_err(), DbError::InvalidInput);
}

#[test]
fn create_index_errors() {
    let mut db = users_db();
    assert_eq!(db.create_index("nobody", "i", &["id"], false).unwrap_err(), DbError::NotFound);
    assert_eq!(db.create_index("users", "i", &["nope"], false).unwrap_err(), DbError::NotFound);
    db.create_index("users", "i", &["name"], false).unwrap();
    assert_eq!(db.create_index("users", "i", &["name"], false).unwrap_err(), DbError::AlreadyExists);
    assert_eq!(db.find_by_index("users", "missing", &[Value::Int32(1)]).unwrap_err(), DbError::NotFound);
    assert_eq!(db.drop_index("users", "missing").unwrap_err(), DbError::NotFound);
}

#[test]
fn unique_index_over_existing_duplicates_fails() {
    let mut db = users_db();
    db.insert("users", user(1, "Alice")).unwrap();
    db.insert("users", user(2, "Alice")).unwrap();
    assert_eq!(db.create_index("users", "u", &["name"], true).unwrap_err(), DbError::InvalidInput);
}

fn orders_db() -> Database {
    let mut db = users_db();
    let orders = TableSchema::new("orders")
        .column(Column::new("oid", DataType::Int32))
        .column(Column::new("uid", DataType::Int32))
        .primary_key(&["oid"]);
    db.create_table(orders).unwrap();
    db.insert("users", user(1, "Alice")).unwrap();
    db.insert("users", user(2, "Bob")).unwrap();
    db.insert("users", user(3, "Carol")).unwrap();
    db.insert("orders", Row::new(vec![Value::Int32(10), Value::Int32(1)])).unwrap();
    db.insert("orders", Row::new(vec![Value::Int32(11), Value::Int32(1)])).unwrap();
    db.insert("orders", Row::new(vec![Value::Int32(12), Value::Int32(2)])).unwrap();
    db
}

#[test]
fn nested_loop_join_inner_and_outer() {
    let mut db = orders_db();
    let inner = db.nested_loop_join("users", "orders", "id", "uid", JoinType::Inner).unwrap();
    assert_eq!(inner.len(), 3);
    assert_eq!(inner[0].left.values[0], Value::Int32(1));
    assert_eq!(inner[0].right.values[0], Value::Int32(10));
    assert_eq!(inner[0].all_values.len(), 4);
    let outer = db.nested_loop_join("users", "orders", "id", "uid", JoinType::LeftOuter).unwrap();
    assert_eq!(outer.len(), 4);
    assert_eq!(outer[3].left.values[0], Value::Int32(3));
    assert_eq!(outer[3].right.values, vec![Value::Null, Value::Null]);
    assert_eq!(db.nested_loop_join("users", "orders", "nope", "uid", JoinType::Inner).unwrap_err(), DbError::InvalidInput);
    assert_eq!(db.nested_loop_join("users", "nobody", "id", "uid", JoinType::Inner).unwrap_err(), DbError::NotFound);
}

#[test]
fn index_nested_loop_join_inner_and_outer() {
    let mut db = orders_db();
    db.create_index("orders", "idx_uid", &["uid"], false).unwrap();
    let inner = db.index_nested_loop_join("users", "orders", "id", "uid", "idx_uid", JoinType::Inner).unwrap();
    assert_eq!(inner.len(), 3);
    let outer = db.index_nested_loop_join("users", "orders", "id", "uid", "idx_uid", JoinType::LeftOuter).unwrap();
    assert_eq!(outer.len(), 4);
    assert_eq!(outer[3].right.values, vec![Value::Null, Value::Null]);
    assert_eq!(
        db.index_nested_loop_join("users", "orders", "id", "uid", "missing", JoinType::Inner).unwrap_err(),
        DbError::NotFound
    );
    assert_eq!(
        db.index_nested_loop_join("users", "orders", "id", "nope", "idx_uid", JoinType::Inner).unwrap_err(),
        DbError::InvalidInput
    );
}

#[test]
fn auto_increment_survives_reopen() {
    let mut db = Database::create().unwrap();
    let mut id = Column::new("id", DataType::Int64);
    id.auto_increment = true;
    let schema = TableSchema::new("items")
        .column(id)
        .column(Column::new("label", DataType::Text))
        .primary_key(&["id"]);
    db.create_table(schema).unwrap();
    db.insert("items", Row::new(vec![Value::Null, Value::Text("a".into())])).unwrap();
    db.sync().unwrap();
    let mut again = Database::open(db.file_image().to_vec()).unwrap();
    assert!(again.get_schema("items").unwrap().columns[0].auto_increment);
    again.insert("items", Row::new(vec![Value::Null, Value::Text("b".into())])).unwrap();
    let row = again.get("items", &[Value::Int64(2)]).unwrap().unwrap();
    assert_eq!(row.values[1], Value::Text("b".into()));
}

#[test]
fn reopen_from_synced_image_keeps_tables_and_rows() {
    let mut db = users_db();
    db.insert("users", user(1, "Alice")).unwrap();
    db.insert("users", user(2, "Bob")).unwrap();
    db.create_index("users", "idx_name", &["name"], false).unwrap();
    db.sync().unwrap();
    let image = db.file_image().to_vec();
    let mut again = Database::open(image).unwrap();
    assert_eq!(again.list_tables(), vec!["users"]);
    let row = again.get("users", &[Value::Int32(2)]).unwrap().unwrap();
    assert_eq!(row.values[1], Value::Text("Bob".into()));
    let found = again.find_by_index("users", "idx_name", &[Value::Text("Alice".into())]).unwrap();
    assert_eq!(found.len(), 1);
}

#[test]
fn open_rejects_garbage() {
    assert!(Database::open(vec![0u8; 4096]).is_err());
    assert!(Database::open(Vec::new()).is_err());
}

#[test]
fn smaller_cache_still_reads_synced_pages() {
    let mut db = users_db();
    for id in 0..50 {
        db.insert("users", user(id, "n")).unwrap();
    }
    db.sync().unwrap();
    let image = db.file_image().to_vec();
    let mut small = Database::open(image).unwrap().with_cache_size(2);
    assert_eq!(small.scan("users").unwrap().len(), 50);
    assert!(small.get("users", &[Value::Int32(42)]).unwrap().is_some());
}

#[test]
fn rows_survive_a_root_split_of_an_indexed_table() {
    let mut db = users_db();
    db.create_index("users", "idx_name", &["name"], false).unwrap();
    let first_root = db.get_schema("users").unwrap().root_page;
    for id in 0..120 {
        db.insert("users", user(id, &format!("user{:03}", id))).unwrap();
    }
    assert_ne!(db.get_schema("users").unwrap().root_page, first_root);
    for id in 0..120 {
        let row = db.get("users", &[Value::Int32(id)]).unwrap().unwrap();
        assert_eq!(row.values[1], Value::Text(format!("user{:03}", id)));
    }
    assert_eq!(db.get_schema("users").unwrap().row_count, 120);
}

#[test]
fn index_holds_each_row_while_no_page_is_added() {
    let mut db = users_db();
    db.create_index("users", "idx_name", &["name"], false).unwrap();
    let pages = db.total_pages();
    for id in 0..5 {
        db.insert("users", user(id, if id % 2 == 0 { "even" } else { "odd" })).unwrap();
    }
    assert_eq!(db.total_pages(), pages);
    let evens = db.find_by_index("users", "idx_name", &[Value::Text("even".into())]).unwrap();
    let ids: Vec<Value> = evens.iter().map(|r| r.values[0].clone()).collect();
    assert_eq!(ids, vec![Value::Int32(0), Value::Int32(2), Value::Int32(4)]);
    let odds = db.find_by_index("users", "idx_name", &[Value::Text("odd".into())]).unwrap();
    assert_eq!(odds.len(), 2);
}

#[test]
fn new_index_takes_the_next_page() {
    let mut db = users_db();
    let next = db.total_pages();
    db.create_index("users", "idx_name", &["name"], true).unwrap();
    let schema = db.get_schema("users").unwrap();
    assert_eq!(schema.indexes.len(), 1);
    assert_eq!(schema.indexes[0].root_page, next);
    assert!(schema.indexes[0].unique);
    assert_eq!(schema.indexes[0].columns, vec!["name".to_string()]);
}

#[test]
fn dropped_table_is_gone_after_reopen() {
    let mut db = users_db();
    let pets = TableSchema::new("pets").column(Column::new("id", DataType::Int32)).primary_key(&["id"]);
    db.create_table(pets).unwrap();
    db.drop_table("users").unwrap();
    db.sync().unwrap();
    let again = Database::open(db.file_image().to_vec()).unwrap();
    assert_eq!(again.list_tables(), vec!["pets"]);
}

#[test]
fn open_reports_why_it_failed() {
    assert!(matches!(Database::open(vec![0u8; 4096]), Err(DbError::InvalidData)));
    assert!(matches!(Database::open(vec![0u8; 100]), Err(DbError::UnexpectedEof)));
    let fresh = Database::create().unwrap();
    let opened = Database::open(fresh.file_image().to_vec()).unwrap();
    assert_eq!(opened.total_pages(), 1);
    assert!(opened.list_tables().is_empty());
}

#[test]
fn auto_increment_stops_where_the_type_ends() {
    let mut db = Database::create().unwrap();
    let mut id = Column::new("id", DataType::Int32);
    id.auto_increment = true;
    let mut schema = TableSchema::new("items").column(id).primary_key(&["id"]);
    schema.auto_increment = 0x7FFF_FFFF;
    db.create_table(schema).unwrap();
    db.insert("items", Row::new(vec![Value::Null])).unwrap();
    assert_eq!(db.get("items", &[Value::Int32(0x7FFF_FFFF)]).unwrap().unwrap().values[0], Value::Int32(0x7FFF_FFFF));
    assert_eq!(db.get_schema("items").unwrap().auto_increment, 0x8000_0000);
    assert_eq!(db.insert("items", Row::new(vec![Value::Null])).unwrap_err(), DbError::InvalidInput);
    assert_eq!(db.get_schema("items").unwrap().row_count, 1);
    db.insert("items", Row::new(vec![Value::Int32(5)])).unwrap();
    assert_eq!(db.get_schema("items").unwrap().auto_increment, 0x8000_0000);
}

#[test]
fn index_root_follows_splits_on_insert() {
    let mut db = users_db();
    db.create_index("users", "idx_name", &["name"], true).unwrap();
    let first_index_root = db.get_schema("users").unwrap().indexes[0].root_page;
    for id in 0..300 {
        db.insert("users", user(id, &format!("user{:03}", id))).unwrap();
    }
    assert_ne!(db.get_schema("users").unwrap().indexes[0].root_page, first_index_root);
    for id in [0, 150, 299] {
        let found = db.find_by_index("users", "idx_name", &[Value::Text(format!("user{:03}", id))]).unwrap();
        assert_eq!(found.len(), 1);
        assert_eq!(found[0].values[0], Value::Int32(id));
    }
    assert_eq!(db.insert("users", user(1000, "user007")).unwrap_err(), DbError::InvalidInput);
    assert_eq!(db.get_schema("users").unwrap().row_count, 300);
}

#[test]
fn index_built_over_many_rows_finds_each() {
    let mut db = users_db();
    for id in 0..300 {
        db.insert("users", user(id, &format!("user{:03}", id))).unwrap();
    }
    db.create_index("users", "idx_name", &["name"], false).unwrap();
    for id in [0, 150, 299] {
        let found = db.find_by_index("users", "idx_name", &[Value::Text(format!("user{:03}", id))]).unwrap();
        assert_eq!(found.len(), 1);
        assert_eq!(found[0].values[0], Value::Int32(id));
    }
}

#[test]
fn refused_unique_index_leaves_schema_and_rows_alone() {
    let mut db = users_db();
    db.insert("users", user(1, "Alice")).unwrap();
    db.insert("users", user(2, "Alice")).unwrap();
    assert_eq!(db.create_index("users", "u", &["name"], true).unwrap_err(), DbError::InvalidInput);
    let schema = db.get_schema("users").unwrap();
    assert!(schema.indexes.is_empty());
    assert_eq!(schema.row_count, 2);
    assert_eq!(db.scan("users").unwrap().len(), 2);
    let before = db.file_image().to_vec();
    assert_eq!(db.insert("users", Row::new(vec![Value::Int32(3)])).unwrap_err(), DbError::InvalidInput);
    assert_eq!(db.insert("nobody", user(3, "Carol")).unwrap_err(), DbError::NotFound);
    assert_eq!(db.file_image().to_vec(), before);
    assert_eq!(db.get_schema("users").unwrap().row_count, 2);
}

#[test]
fn insert_and_delete_leave_other_rows_alone() {
    let mut db = users_db();
    for id in 0..20 {
        db.insert("users", user(id, &format!("u{}", id))).unwrap();
    }
    db.insert("users", user(7, "seven")).unwrap();
    assert!(db.delete("users", &[Value::Int32(12)]).unwrap());
    for id in 0..20 {
        let got = db.get("users", &[Value::Int32(id)]).unwrap();
        match id {
            7 => assert_eq!(got.unwrap().values[1], Value::Text("seven".into())),
            12 => assert!(got.is_none()),
            _ => assert_eq!(got.unwrap().values[1], Value::Text(format!("u{}", id))),
        }
    }
    assert_eq!(db.scan("users").unwrap().len(), 19);
}

#[test]
fn drop_table_removes_catalog_entry() {
    let mut db = users_db();
    db.insert("users", user(1, "Alice")).unwrap();
    db.drop_table("users").unwrap();
    assert_eq!(db.drop_table("users").unwrap_err(), DbError::NotFound);
    db.sync().unwrap();
    let reopened = Database::open(db.file_image().to_vec()).unwrap();
    assert!(reopened.list_tables().is_empty());
}
