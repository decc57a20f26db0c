use db::btree::{InternalNode, LeafNode, NODE_INTERNAL, NODE_LEAF};
use db::codec::KeyOrder;
use db::storage::PAGE_SIZE;
use db::{Column, DataType, DbError, IndexDef, Row, TableBuilder, TableSchema, Value};

fn roundtrip(v: Value, dt: DataType) -> Value {
    let mut buf = Vec::new();
    v.serialize(&mut buf);
    let mut off = 0usize;
    let back = Value::deserialize(dt, &buf, &mut off).unwrap();
    assert_eq!(off, buf.len());
    back
}

#[test]
fn data_type_byte_roundtrip() {
    let all = [
        DataType::Null,
        DataType::Bool,
        DataType::UInt32,
        DataType::UInt64,
        DataType::Int32,
        DataType::Int64,
        DataType::Float64,
        DataType::Text,
        DataType::Blob,
        DataType::Timestamp,
    ];
    for (i, dt) in all.iter().enumerate() {
        assert_eq!(dt.to_byte(), i as u8);
        assert_eq!(DataType::from_byte(i as u8), Some(*dt));
    }
    assert_eq!(DataType::from_byte(10), None);
    assert_eq!(DataType::from_byte(255), None);
}

#[test]
fn data_type_fixed_sizes() {
    assert_eq!(DataType::Null.fixed_size(), Some(0));
    assert_eq!(DataType::Bool.fixed_size(), Some(1));
    assert_eq!(DataType::UInt32.fixed_size(), Some(4));
    assert_eq!(DataType::Int32.fixed_size(), Some(4));
    assert_eq!(DataType::UInt64.fixed_size(), Some(8));
    assert_eq!(DataType::Int64.fixed_size(), Some(8));
    assert_eq!(DataType::Float64.fixed_size(), Some(8));
    assert_eq!(DataType::Timestamp.fixed_size(), Some(8));
    assert_eq!(DataType::Text.fixed_size(), None);
    assert_eq!(DataType::Blob.fixed_size(), None);
}

#[test]
fn value_roundtrips_for_faithful_types() {
    assert_eq!(roundtrip(Value::Null, DataType::Null), Value::Null);
    assert_eq!(roundtrip(Value::Bool(true), DataType::Bool), Value::Bool(true));
    assert_eq!(roundtrip(Value::Bool(false), DataType::Bool), Value::Bool(false));
    assert_eq!(roundtrip(Value::Int32(-123456), DataType::Int32), Value::Int32(-123456));
    assert_eq!(roundtrip(Value::Int64(i64::MIN), DataType::Int64), Value::Int64(i64::MIN));
    let pi = 3.25f64.to_bits();
    assert_eq!(roundtrip(Value::Float64(pi), DataType::Float64), Value::Float64(pi));
    assert_eq!(roundtrip(Value::Text("héllo".to_string()), DataType::Text), Value::Text("héllo".to_string()));
    assert_eq!(roundtrip(Value::Blob(vec![1, 2, 3]), DataType::Blob), Value::Blob(vec![1, 2, 3]));
    assert_eq!(roundtrip(Value::Timestamp(1_700_000_000), DataType::Timestamp), Value::Timestamp(1_700_000_000));
}

#[test]
fn value_encodings_are_little_endian_with_length_prefix() {
    let mut buf = Vec::new();
    Value::Int32(1).serialize(&mut buf);
    assert_eq!(buf, vec![1, 0, 0, 0]);
    let mut buf = Vec::new();
    Value::Text("ab".to_string()).serialize(&mut buf);
    assert_eq!(buf, vec![2, 0, 0, 0, b'a', b'b']);
    let mut buf = Vec::new();
    Value::Null.serialize(&mut buf);
    assert!(buf.is_empty());
}

#[test]
fn unsigned_values_are_little_endian_words() {
    let mut buf = Vec::new();
    Value::UInt32(258).serialize(&mut buf);
    assert_eq!(buf, vec![2, 1, 0, 0]);
    let mut off = 0usize;
    assert_eq!(Value::deserialize(DataType::UInt32, &buf, &mut off).unwrap(), Value::UInt32(258));
    assert_eq!(off, 4);
    let mut buf = Vec::new();
    Value::UInt64(258).serialize(&mut buf);
    assert_eq!(buf, vec![2, 1, 0, 0, 0, 0, 0, 0]);
    let mut off = 0usize;
    assert_eq!(Value::deserialize(DataType::UInt64, &buf, &mut off).unwrap(), Value::UInt64(258));
    assert_eq!(off, 8);
    let mut off = 0usize;
    assert_eq!(Value::deserialize(DataType::UInt32, &[44], &mut off).unwrap_err(), DbError::UnexpectedEof);
}

#[test]
fn value_deserialize_errors() {
    let mut off = 0usize;
    assert_eq!(Value::deserialize(DataType::Int64, &[1, 2, 3], &mut off).unwrap_err(), DbError::UnexpectedEof);
    let mut off = 0usize;
    assert_eq!(Value::deserialize(DataType::Bool, &[], &mut off).unwrap_err(), DbError::UnexpectedEof);
    let mut off = 0usize;
    assert_eq!(
        Value::deserialize(DataType::Text, &[2, 0, 0, 0, 0xff, 0xfe], &mut off).unwrap_err(),
        DbError::InvalidData
    );
    let mut off = 0usize;
    assert_eq!(Value::deserialize(DataType::Text, &[9, 0, 0, 0, b'a'], &mut off).unwrap_err(), DbError::UnexpectedEof);
}

#[test]
fn value_data_type_and_key_order() {
    assert_eq!(Value::Text("x".into()).data_type(), DataType::Text);
    assert_eq!(Value::Float64(0).data_type(), DataType::Float64);
    assert_eq!(Value::Null.cmp_key(&Value::Int32(0)), KeyOrder::Less);
    assert_eq!(Value::Int32(5).cmp_key(&Value::Null), KeyOrder::Greater);
    assert_eq!(Value::Int32(-5).cmp_key(&Value::Int32(3)), KeyOrder::Less);
    assert_eq!(Value::Text("abc".into()).cmp_key(&Value::Text("abd".into())), KeyOrder::Less);
    assert_eq!(Value::Text("ab".into()).cmp_key(&Value::Text("ab".into())), KeyOrder::Equal);
    assert_eq!(Value::Bool(false).cmp_key(&Value::Bool(true)), KeyOrder::Less);
    assert_eq!(Value::Blob(vec![2]).cmp_key(&Value::Blob(vec![1, 9])), KeyOrder::Greater);
    assert_eq!(Value::Float64((-1.5f64).to_bits()).cmp_key(&Value::Float64(2.0f64.to_bits())), KeyOrder::Less);
    assert_eq!(Value::Float64(f64::NAN.to_bits()).cmp_key(&Value::Float64(1.0f64.to_bits())), KeyOrder::Equal);
    assert_eq!(Value::Int32(1).cmp_key(&Value::Text("a".into())), KeyOrder::Equal);
    assert_eq!(Value::UInt32(1).cmp_key(&Value::UInt32(2)), KeyOrder::Equal);
}

#[test]
fn value_equality_follows_float_semantics() {
    assert_eq!(Value::Float64(0.0f64.to_bits()), Value::Float64((-0.0f64).to_bits()));
    assert_ne!(Value::Float64(f64::NAN.to_bits()), Value::Float64(f64::NAN.to_bits()));
    assert_ne!(Value::Int32(1), Value::Int64(1));
    assert_eq!(Value::Null, Value::Null);
}

fn people() -> TableSchema {
    TableSchema::new("people")
        .column(Column::new("id", DataType::Int64))
        .column(Column::new("name", DataType::Text).not_null())
        .column(Column::new("score", DataType::Int32).default(Value::Int32(7)))
        .primary_key(&["id"])
        .index(IndexDef::new("idx_name", vec!["name".to_string()], true))
}

#[test]
fn row_roundtrip_with_nulls() {
    let schema = people();
    let row = Row::new(vec![Value::Int64(9), Value::Null, Value::Int32(-2)]);
    let bytes = row.serialize(&schema);
    assert_eq!(bytes[0], 0b010);
    let back = Row::deserialize(&bytes, &schema).unwrap();
    assert_eq!(back.values, row.values);
    assert_eq!(back.get(2), Some(&Value::Int32(-2)));
    assert_eq!(back.get(3), None);
}

#[test]
fn row_deserialize_short_input() {
    let schema = people();
    assert_eq!(Row::deserialize(&[], &schema).unwrap_err(), DbError::UnexpectedEof);
    assert_eq!(Row::deserialize(&[0, 1, 2], &schema).unwrap_err(), DbError::UnexpectedEof);
}

#[test]
fn column_and_index_roundtrip() {
    let c = Column::new("score", DataType::Int32).not_null().default(Value::Int32(7));
    let mut buf = Vec::new();
    c.serialize(&mut buf);
    let mut off = 0usize;
    let back = Column::deserialize(&buf, &mut off).unwrap();
    assert_eq!(off, buf.len());
    assert_eq!(back.name, "score");
    assert_eq!(back.data_type, DataType::Int32);
    assert!(!back.nullable);
    assert_eq!(back.default, Some(Value::Int32(7)));

    let mut idx = IndexDef::new("i", vec!["a".to_string(), "b".to_string()], true);
    idx.root_page = 42;
    let mut buf = Vec::new();
    idx.serialize(&mut buf);
    let mut off = 0usize;
    let back = IndexDef::deserialize(&buf, &mut off).unwrap();
    assert_eq!(back.name, "i");
    assert_eq!(back.columns, vec!["a".to_string(), "b".to_string()]);
    assert!(back.unique);
    assert_eq!(back.root_page, 42);
}

#[test]
fn table_schema_roundtrip() {
    let mut schema = people();
    schema.root_page = 5;
    schema.row_count = 3;
    schema.auto_increment = 11;
    let mut buf = Vec::new();
    schema.serialize(&mut buf);
    let back = TableSchema::deserialize(&buf).unwrap();
    assert_eq!(back.name, "people");
    assert_eq!(back.columns.len(), 3);
    assert_eq!(back.columns[1].name, "name");
    assert!(!back.columns[1].nullable);
    assert_eq!(back.columns[2].default, Some(Value::Int32(7)));
    assert_eq!(back.primary_key, vec!["id".to_string()]);
    assert_eq!(back.indexes.len(), 1);
    assert_eq!(back.indexes[0].name, "idx_name");
    assert_eq!(back.root_page, 5);
    assert_eq!(back.row_count, 3);
    assert_eq!(back.auto_increment, 11);
    assert!(TableSchema::deserialize(&buf[..buf.len() - 1]).is_err());
}

#[test]
fn table_schema_lookups() {
    let schema = people();
    assert_eq!(schema.get_column_index("score"), Some(2));
    assert_eq!(schema.get_column_index("nope"), None);
    assert_eq!(schema.get_column("name").unwrap().data_type, DataType::Text);
    assert!(schema.get_index("idx_name").unwrap().unique);
    assert!(schema.get_index("other").is_none());
    let fresh = TableSchema::new("t");
    assert_eq!(fresh.auto_increment, 1);
    assert_eq!(fresh.root_page, 0);
    assert_eq!(fresh.row_count, 0);
}

#[test]
fn table_builder_builds_schema() {
    let schema = TableBuilder::new("t")
        .column("a", DataType::Int32)
        .column_not_null("b", DataType::Text)
        .column_with_default("c", DataType::Bool, Value::Bool(true))
        .primary_key(&["a", "b"])
        .build();
    assert_eq!(schema.name, "t");
    assert_eq!(schema.columns.len(), 3);
    assert!(schema.columns[0].nullable);
    assert!(!schema.columns[1].nullable);
    assert_eq!(schema.columns[2].default, Some(Value::Bool(true)));
    assert_eq!(schema.primary_key, vec!["a".to_string(), "b".to_string()]);
}

#[test]
fn leaf_node_roundtrip_and_search() {
    let mut leaf = LeafNode::new();
    leaf.keys = vec![vec![1], vec![3], vec![5, 0]];
    leaf.values = vec![vec![10], vec![30], vec![]];
    leaf.next_leaf = 8;
    leaf.prev_leaf = 2;
    assert!(leaf.fits_in_page());
    let bytes = leaf.serialize();
    assert_eq!(bytes.len(), PAGE_SIZE);
    assert_eq!(bytes[0], NODE_LEAF);
    let back = LeafNode::deserialize(&bytes).unwrap();
    assert_eq!(back.keys, leaf.keys);
    assert_eq!(back.values, leaf.values);
    assert_eq!(back.next_leaf, 8);
    assert_eq!(back.prev_leaf, 2);
    assert_eq!(leaf.find_key_position(&[0]), 0);
    assert_eq!(leaf.find_key_position(&[3]), 1);
    assert_eq!(leaf.find_key_position(&[4]), 2);
    assert_eq!(leaf.find_key_position(&[9]), 3);
    assert!(!leaf.is_full());
}

#[test]
fn leaf_node_rejects_wrong_tag() {
    let mut bytes = LeafNode::new().serialize();
    bytes[0] = NODE_INTERNAL;
    assert_eq!(LeafNode::deserialize(&bytes).unwrap_err(), DbError::InvalidData);
}

#[test]
fn internal_node_roundtrip() {
    let mut node = InternalNode::new();
    node.keys = vec![vec![4], vec![9, 9]];
    node.children = vec![2, 3, 7];
    assert!(node.fits_in_page());
    let bytes = node.serialize();
    assert_eq!(bytes.len(), PAGE_SIZE);
    assert_eq!(bytes[0], NODE_INTERNAL);
    let back = InternalNode::deserialize(&bytes).unwrap();
    assert_eq!(back.keys, node.keys);
    assert_eq!(back.children, node.children);
    assert!(!node.is_full());
    let mut bad = bytes.clone();
    bad[0] = NODE_LEAF;
    assert_eq!(InternalNode::deserialize(&bad).unwrap_err(), DbError::InvalidData);
}

#[test]
fn text_that_is_not_utf8_leaves_offset_past_its_length() {
    let mut off = 1usize;
    let data = [7, 2, 0, 0, 0, 0xff, 0xfe];
    assert_eq!(Value::deserialize(DataType::Text, &data, &mut off).unwrap_err(), DbError::InvalidData);
    assert_eq!(off, 5);
    let mut off = 1usize;
    assert_eq!(Value::deserialize(DataType::Int64, &data, &mut off).unwrap_err(), DbError::UnexpectedEof);
    assert_eq!(off, 1);
}
