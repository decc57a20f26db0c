use db::codec::KeyOrder;
use db::query_builder::{compare_values, filter_rows, finish_rows, limit_rows, project_rows, sort_rows};
use db::{Column, CompareOp, DataType, Database, DbError, OrderDirection, QueryBuilder, QueryResult, Row, TableSchema, Value};

fn people_db() -> Database {
    let mut db = Database::create().unwrap();
    let schema = TableSchema::new("people")
        .column(Column::new("id", DataType::Int32))
        .column(Column::new("name", DataType::Text))
        .column(Column::new("age", DataType::Int32))
        .primary_key(&["id"]);
    db.create_table(schema).unwrap();
    for (id, name, age) in [(1, "Ann", 30), (2, "Bob", 25), (3, "Ann", 41), (4, "Cid", 25)] {
        db.insert("people", Row::new(vec![Value::Int32(id), Value::Text(name.into()), Value::Int32(age)])).unwrap();
    }
    db
}

fn simple(r: QueryResult) -> Vec<Row> {
    match r {
        QueryResult::Simple(rows) => rows,
        QueryResult::Joined(_) => panic!("expected plain rows"),
    }
}

fn ids(rows: &[Row]) -> Vec<i32> {
    rows.iter()
        .map(|r| match r.values[0] {
            Value::Int32(i) => i,
            _ => panic!("expected an Int32 id"),
        })
        .collect()
}

#[test]
fn select_where_order_limit() {
    let mut db = people_db();
    let rows = simple(
        QueryBuilder::new(&mut db)
            .from("people")
            .where_eq("name", Value::Text("Ann".into()))
            .order_by("age", OrderDirection::Desc)
            .execute()
            .unwrap(),
    );
    assert_eq!(ids(&rows), vec![3, 1]);

    let rows = simple(QueryBuilder::new(&mut db).from("people").order_by("age", OrderDirection::Asc).limit(3).execute().unwrap());
    // stable: Bob (2) before Cid (4) at age 25
    assert_eq!(ids(&rows), vec![2, 4, 1]);

    let rows = simple(QueryBuilder::new(&mut db).from("people").select(&["name", "id"]).limit(2).execute().unwrap());
    assert_eq!(rows[0].values, vec![Value::Text("Ann".into()), Value::Int32(1)]);
    assert_eq!(rows.len(), 2);
}

#[test]
fn where_eq_uses_index_when_there_is_one() {
    let mut db = people_db();
    db.create_index("people", "idx_name", &["name"], false).unwrap();
    let rows = simple(QueryBuilder::new(&mut db).from("people").where_eq("name", Value::Text("Ann".into())).execute().unwrap());
    assert_eq!(ids(&rows), vec![1, 3]);
}

#[test]
fn query_errors() {
    let mut db = people_db();
    assert_eq!(QueryBuilder::new(&mut db).execute().unwrap_err(), DbError::InvalidInput);
    assert_eq!(QueryBuilder::new(&mut db).from("nobody").execute().unwrap_err(), DbError::NotFound);
    assert_eq!(
        QueryBuilder::new(&mut db).from("people").where_eq("nope", Value::Int32(1)).execute().unwrap_err(),
        DbError::InvalidInput
    );
    assert_eq!(
        QueryBuilder::new(&mut db).from("people").order_by("nope", OrderDirection::Asc).execute().unwrap_err(),
        DbError::InvalidInput
    );
    assert_eq!(QueryBuilder::new(&mut db).from("people").select(&["nope"]).execute().unwrap_err(), DbError::InvalidInput);
    assert_eq!(
        QueryBuilder::new(&mut db)
            .from("people")
            .inner_join("people", "id", "id")
            .left_join("people", "id", "id")
            .execute()
            .unwrap_err(),
        DbError::InvalidInput
    );
    assert_eq!(
        QueryBuilder::new(&mut db).from("people").inner_join("people", "id", "age").execute().unwrap_err(),
        DbError::InvalidInput
    );
    assert_eq!(QueryBuilder::new(&mut db).insert().unwrap_err(), DbError::InvalidInput);
    assert_eq!(QueryBuilder::new(&mut db).from("people").insert().unwrap_err(), DbError::InvalidInput);
    assert_eq!(QueryBuilder::new(&mut db).from("people").update().unwrap_err(), DbError::InvalidInput);
    assert_eq!(QueryBuilder::new(&mut db).set("age", Value::Int32(1)).update().unwrap_err(), DbError::InvalidInput);
    assert_eq!(QueryBuilder::new(&mut db).delete().unwrap_err(), DbError::InvalidInput);
}

#[test]
fn insert_update_delete_through_builder() {
    let mut db = people_db();
    QueryBuilder::new(&mut db)
        .from("people")
        .values(vec![Value::Int32(5), Value::Text("Dee".into()), Value::Int32(19)])
        .insert()
        .unwrap();
    assert_eq!(db.scan("people").unwrap().len(), 5);

    let n = QueryBuilder::new(&mut db)
        .from("people")
        .where_eq("name", Value::Text("Ann".into()))
        .set("age", Value::Int32(50))
        .update()
        .unwrap();
    assert_eq!(n, 2);
    let ann = db.get("people", &[Value::Int32(3)]).unwrap().unwrap();
    assert_eq!(ann.values[2], Value::Int32(50));
    let bob = db.get("people", &[Value::Int32(2)]).unwrap().unwrap();
    assert_eq!(bob.values[2], Value::Int32(25));

    assert_eq!(
        QueryBuilder::new(&mut db).from("people").set("nope", Value::Int32(1)).update().unwrap_err(),
        DbError::InvalidInput
    );

    let n = QueryBuilder::new(&mut db).from("people").where_eq("age", Value::Int32(25)).delete().unwrap();
    assert_eq!(n, 2);
    assert_eq!(ids(&db.scan("people").unwrap()), vec![1, 3, 5]);

    let n = QueryBuilder::new(&mut db).from("people").delete().unwrap();
    assert_eq!(n, 3);
    assert!(db.scan("people").unwrap().is_empty());
}

#[test]
fn join_through_builder() {
    let mut db = people_db();
    let pets = TableSchema::new("pets")
        .column(Column::new("pid", DataType::Int32))
        .column(Column::new("owner", DataType::Int32))
        .primary_key(&["pid"]);
    db.create_table(pets).unwrap();
    db.insert("pets", Row::new(vec![Value::Int32(100), Value::Int32(1)])).unwrap();
    db.insert("pets", Row::new(vec![Value::Int32(101), Value::Int32(3)])).unwrap();
    db.create_index("pets", "idx_owner", &["owner"], false).unwrap();

    let joined = match QueryBuilder::new(&mut db).from("people").inner_join("pets", "id", "owner").execute().unwrap() {
        QueryResult::Joined(j) => j,
        QueryResult::Simple(_) => panic!("expected joined rows"),
    };
    assert_eq!(joined.len(), 2);
    assert_eq!(joined[1].right.values[0], Value::Int32(101));

    let outer = match QueryBuilder::new(&mut db).from("people").left_join("pets", "id", "owner").limit(3).execute().unwrap() {
        QueryResult::Joined(j) => j,
        QueryResult::Simple(_) => panic!("expected joined rows"),
    };
    assert_eq!(outer.len(), 3);
    assert_eq!(outer[1].right.values, vec![Value::Null, Value::Null]);

    let hinted = match QueryBuilder::new(&mut db)
        .from("people")
        .inner_join_indexed("pets", "id", "owner", "idx_owner")
        .execute()
        .unwrap()
    {
        QueryResult::Joined(j) => j,
        QueryResult::Simple(_) => panic!("expected joined rows"),
    };
    assert_eq!(hinted.len(), 2);
}

fn r(v: i32, s: &str) -> Row {
    Row::new(vec![Value::Int32(v), Value::Text(s.into())])
}

#[test]
fn compare_values_order() {
    assert_eq!(compare_values(&Value::Null, &Value::Null), KeyOrder::Equal);
    assert_eq!(compare_values(&Value::Null, &Value::Int32(1)), KeyOrder::Less);
    assert_eq!(compare_values(&Value::Int32(1), &Value::Null), KeyOrder::Greater);
    assert_eq!(compare_values(&Value::UInt32(1), &Value::UInt32(2)), KeyOrder::Less);
    assert_eq!(compare_values(&Value::UInt64(9), &Value::UInt64(2)), KeyOrder::Greater);
    assert_eq!(compare_values(&Value::Text("b".into()), &Value::Text("a".into())), KeyOrder::Greater);
    assert_eq!(compare_values(&Value::Int32(1), &Value::Int64(0)), KeyOrder::Equal);
    assert_eq!(compare_values(&Value::Timestamp(-1), &Value::Timestamp(0)), KeyOrder::Less);
}

#[test]
fn filter_rows_by_each_comparison() {
    let rows = || vec![r(1, "a"), r(2, "b"), r(3, "c")];
    let t = Value::Int32(2);
    assert_eq!(ids(&filter_rows(rows(), 0, CompareOp::Eq, &t)), vec![2]);
    assert_eq!(ids(&filter_rows(rows(), 0, CompareOp::NotEq, &t)), vec![1, 3]);
    assert_eq!(ids(&filter_rows(rows(), 0, CompareOp::Lt, &t)), vec![1]);
    assert_eq!(ids(&filter_rows(rows(), 0, CompareOp::Lte, &t)), vec![1, 2]);
    assert_eq!(ids(&filter_rows(rows(), 0, CompareOp::Gt, &t)), vec![3]);
    assert_eq!(ids(&filter_rows(rows(), 0, CompareOp::Gte, &t)), vec![2, 3]);
}

#[test]
fn sort_is_stable_and_limit_cuts() {
    let rows = vec![r(3, "x"), r(1, "y"), r(3, "a"), r(2, "z")];
    let sorted = sort_rows(rows, 0, OrderDirection::Asc);
    assert_eq!(ids(&sorted), vec![1, 2, 3, 3]);
    assert_eq!(sorted[2].values[1], Value::Text("x".into()));
    let desc = sort_rows(sorted, 0, OrderDirection::Desc);
    assert_eq!(ids(&desc), vec![3, 3, 2, 1]);
    assert_eq!(desc[0].values[1], Value::Text("x".into()));
    assert_eq!(ids(&limit_rows(desc, Some(2))), vec![3, 3]);
    assert_eq!(limit_rows(vec![r(1, "a")], Some(5)).len(), 1);
    assert_eq!(limit_rows(vec![r(1, "a")], None).len(), 1);
}

#[test]
fn project_and_finish_rows() {
    let p = project_rows(vec![r(1, "a"), r(2, "b")], &vec![1, 0, 1]);
    assert_eq!(p[1].values, vec![Value::Text("b".into()), Value::Int32(2), Value::Text("b".into())]);

    let schema = TableSchema::new("t")
        .column(Column::new("n", DataType::Int32))
        .column(Column::new("s", DataType::Text));
    let rows = vec![r(2, "b"), r(1, "a"), r(3, "c")];
    let out = finish_rows(&schema, rows, &Some(("n".to_string(), OrderDirection::Asc)), Some(2), &vec!["s".to_string()]).unwrap();
    assert_eq!(out.len(), 2);
    assert_eq!(out[0].values, vec![Value::Text("a".into())]);
    assert_eq!(out[1].values, vec![Value::Text("b".into())]);
    assert_eq!(
        finish_rows(&schema, vec![r(1, "a")], &Some(("zz".to_string(), OrderDirection::Asc)), None, &vec![]).unwrap_err(),
        DbError::InvalidInput
    );
    assert_eq!(finish_rows(&schema, vec![r(1, "a")], &None, None, &vec!["zz".to_string()]).unwrap_err(), DbError::InvalidInput);
}
