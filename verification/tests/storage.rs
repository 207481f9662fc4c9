use tablestore::data::{ColumnDef, DataType, Row, Schema, Value};
use tablestore::error::StoreError;
use tablestore::keys::Key;
use tablestore::store::{id_seed_from_keys, MemoryStorage};

fn text_schema(table: &str) -> Schema {
    Schema {
        table_name: table.to_owned(),
        column_defs: vec![ColumnDef {
            name: "value".to_owned(),
            data_type: DataType::Text,
            nullable: false,
            unique: false,
        }],
    }
}

fn text_row(s: &str) -> Row {
    Row { values: vec![Value::Str(s.to_owned())] }
}

fn scan_pairs(store: &MemoryStorage, table: &str) -> Vec<(Key, Vec<Value>)> {
    store.scan_data(table).into_iter().map(|(k, r)| (k, r.values)).collect()
}

#[test]
fn scan_yields_ascending_key_order() {
    let store = MemoryStorage::new();
    let (store, r) = store.insert_schema(text_schema("T"));
    assert_eq!(r, Ok(()));
    let rows = vec![
        (Key::U64(5), text_row("five")),
        (Key::U64(1), text_row("one")),
        (Key::U64(3), text_row("three")),
    ];
    let (store, r) = store.insert_data("T", rows);
    assert_eq!(r, Ok(()));
    let got: Vec<Key> = scan_pairs(&store, "T").into_iter().map(|(k, _)| k).collect();
    assert_eq!(got, vec![Key::U64(1), Key::U64(3), Key::U64(5)]);
}

#[test]
fn append_assigns_fresh_distinct_ids() {
    let store = MemoryStorage::new();
    let (store, r) = store.insert_schema(text_schema("T"));
    assert_eq!(r, Ok(()));
    let (store, r) = store.append_data("T", vec![text_row("a"), text_row("b"), text_row("c")]);
    assert_eq!(r, Ok(()));
    // exactly three rows, each point-lookupable under its fresh id
    assert_eq!(store.fetch_data("T", &Key::U64(0)), Some(text_row("a")));
    assert_eq!(store.fetch_data("T", &Key::U64(1)), Some(text_row("b")));
    assert_eq!(store.fetch_data("T", &Key::U64(2)), Some(text_row("c")));
    assert_eq!(store.scan_data("T").len(), 3);
}

#[test]
fn failed_append_leaves_no_rows_visible() {
    let store = MemoryStorage::new();
    let (store, r) = store.insert_schema(text_schema("T"));
    assert_eq!(r, Ok(()));
    // second row has the wrong column count: the whole batch must fail
    let bad = Row { values: vec![Value::Str("x".to_owned()), Value::Null] };
    let (store, r) = store.append_data("T", vec![text_row("a"), bad]);
    assert_eq!(r, Err(StoreError::SchemaMismatch));
    assert_eq!(store.scan_data("T").len(), 0);
    // and the counter did not advance: the next append starts at zero
    let (store, r) = store.append_data("T", vec![text_row("a")]);
    assert_eq!(r, Ok(()));
    assert_eq!(store.fetch_data("T", &Key::U64(0)), Some(text_row("a")));
}

#[test]
fn append_without_schema_fails() {
    let store = MemoryStorage::new();
    let (store, r) = store.append_data("T", vec![text_row("a")]);
    assert_eq!(r, Err(StoreError::MissingSchema));
    assert_eq!(store.scan_data("T").len(), 0);
}

#[test]
fn append_refuses_taken_key() {
    let store = MemoryStorage::new();
    let (store, r) = store.insert_schema(text_schema("T"));
    assert_eq!(r, Ok(()));
    // an explicit insert under the id the allocator would issue next
    let (store, r) = store.insert_data("T", vec![(Key::U64(0), text_row("explicit"))]);
    assert_eq!(r, Ok(()));
    let (store, r) = store.append_data("T", vec![text_row("auto")]);
    assert_eq!(r, Err(StoreError::KeyTaken));
    assert_eq!(store.fetch_data("T", &Key::U64(0)), Some(text_row("explicit")));
}

#[test]
fn insert_data_overwrites_by_key() {
    let store = MemoryStorage::new();
    let (store, r) = store.insert_schema(text_schema("T"));
    assert_eq!(r, Ok(()));
    let (store, r) = store.insert_data("T", vec![(Key::I64(7), text_row("old"))]);
    assert_eq!(r, Ok(()));
    let (store, r) = store.insert_data("T", vec![(Key::I64(7), text_row("new"))]);
    assert_eq!(r, Ok(()));
    assert_eq!(store.fetch_data("T", &Key::I64(7)), Some(text_row("new")));
    assert_eq!(store.scan_data("T").len(), 1);
}

#[test]
fn schema_delete_cascades() {
    let store = MemoryStorage::new();
    let (store, r) = store.insert_schema(text_schema("T"));
    assert_eq!(r, Ok(()));
    let (store, r) = store.insert_data("T", vec![(Key::U64(9), text_row("gone"))]);
    assert_eq!(r, Ok(()));
    let (store, r) = store.delete_schema("T");
    assert_eq!(r, Ok(()));
    assert_eq!(store.fetch_schema("T"), None);
    assert_eq!(store.fetch_data("T", &Key::U64(9)), None);
    assert_eq!(store.scan_data("T").len(), 0);
}

#[test]
fn delete_schema_keeps_other_tables() {
    let store = MemoryStorage::new();
    let (store, _) = store.insert_schema(text_schema("A"));
    let (store, _) = store.insert_schema(text_schema("B"));
    let (store, _) = store.insert_data("B", vec![(Key::U64(1), text_row("keep"))]);
    let (store, r) = store.delete_schema("A");
    assert_eq!(r, Ok(()));
    assert_eq!(store.fetch_schema("A"), None);
    assert_eq!(store.fetch_schema("B"), Some(text_schema("B")));
    assert_eq!(store.fetch_data("B", &Key::U64(1)), Some(text_row("keep")));
}

#[test]
fn unsupported_alteration_changes_nothing() {
    let store = MemoryStorage::new();
    let (store, r) = store.insert_schema(text_schema("T"));
    assert_eq!(r, Ok(()));
    let before = store.fetch_all_schemas();

    let (store, r) = store.rename_schema("T", "U");
    assert_eq!(r, Err(StoreError::Unsupported));
    let (store, r) = store.rename_column("T", "value", "v2");
    assert_eq!(r, Err(StoreError::Unsupported));
    let (store, r) = store.add_column(
        "T",
        ColumnDef {
            name: "extra".to_owned(),
            data_type: DataType::Int,
            nullable: true,
            unique: false,
        },
    );
    assert_eq!(r, Err(StoreError::Unsupported));
    let (store, r) = store.drop_column("T", "value", true);
    assert_eq!(r, Err(StoreError::Unsupported));

    assert_eq!(store.fetch_all_schemas(), before);
}

#[test]
fn invalid_table_name_rejected_at_creation() {
    let store = MemoryStorage::new();
    let (store, r) = store.insert_schema(text_schema("bad/name"));
    assert_eq!(r, Err(StoreError::InvalidTableName));
    assert_eq!(store.fetch_all_schemas(), vec![]);
}

#[test]
fn schema_put_is_create_or_replace() {
    let store = MemoryStorage::new();
    let (store, _) = store.insert_schema(text_schema("T"));
    let mut two_cols = text_schema("T");
    two_cols.column_defs.push(ColumnDef {
        name: "extra".to_owned(),
        data_type: DataType::Bool,
        nullable: true,
        unique: false,
    });
    let (store, r) = store.insert_schema(two_cols.clone());
    assert_eq!(r, Ok(()));
    assert_eq!(store.fetch_all_schemas(), vec![two_cols.clone()]);
    assert_eq!(store.fetch_schema("T"), Some(two_cols));
}

#[test]
fn id_seed_skips_every_issued_id() {
    assert_eq!(id_seed_from_keys(&vec![]), 0);
    let keys = vec![Key::U64(5), Key::Str("x".to_owned()), Key::U64(2)];
    assert_eq!(id_seed_from_keys(&keys), 6);
    let keys = vec![Key::I64(9)];
    assert_eq!(id_seed_from_keys(&keys), 0);
}

#[test]
fn end_to_end_scenario() {
    let store = MemoryStorage::new();
    let (store, r) = store.insert_schema(text_schema("App"));
    assert_eq!(r, Ok(()));

    let (store, r) = store.append_data("App", vec![text_row("hello")]);
    assert_eq!(r, Ok(()));
    let (store, r) = store.append_data("App", vec![text_row("world")]);
    assert_eq!(r, Ok(()));

    let got = scan_pairs(&store, "App");
    assert_eq!(
        got,
        vec![
            (Key::U64(0), vec![Value::Str("hello".to_owned())]),
            (Key::U64(1), vec![Value::Str("world".to_owned())]),
        ]
    );

    let (store, r) = store.delete_data("App", vec![Key::U64(0)]);
    assert_eq!(r, Ok(()));
    let got = scan_pairs(&store, "App");
    assert_eq!(got, vec![(Key::U64(1), vec![Value::Str("world".to_owned())])]);
}
