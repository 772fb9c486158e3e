use rustdb::db_errors::DbError;
use rustdb::table_set::TableSet;
use rustdb::table_wal::{TableWAL, TaskType};
use rustdb::tables::{table_readable, Condition, DataTypes, Operator, Table, Value};
use std::cmp::Ordering;

fn schema() -> Vec<(String, DataTypes)> {
    vec![("a".to_string(), DataTypes::UINT32), ("b".to_string(), DataTypes::VARCHAR), ("c".to_string(), DataTypes::INT32)]
}

fn row(a: u32, b: &str, c: i32) -> Vec<(String, Value)> {
    vec![
        ("a".to_string(), Value::Uint32(a)),
        ("b".to_string(), Value::Varchar(b.to_string())),
        ("c".to_string(), Value::Int32(c)),
    ]
}

fn same_value(x: &Value, y: &Value) -> bool {
    match (x, y) {
        (Value::Uint32(p), Value::Uint32(q)) => p == q,
        (Value::Int32(p), Value::Int32(q)) => p == q,
        (Value::Float32(p), Value::Float32(q)) => p == q,
        (Value::Varchar(p), Value::Varchar(q)) => p == q,
        _ => false,
    }
}

fn same_row(x: &[(String, Value)], y: &[(String, Value)]) -> bool {
    x.len() == y.len() && x.iter().zip(y.iter()).all(|(p, q)| p.0 == q.0 && same_value(&p.1, &q.1))
}

#[test]
fn operator_accepts_orderings() {
    assert!(Operator::Equal.accepts(Ordering::Equal));
    assert!(!Operator::Equal.accepts(Ordering::Less));
    assert!(Operator::NotEqual.accepts(Ordering::Greater));
    assert!(!Operator::NotEqual.accepts(Ordering::Equal));
    assert!(Operator::Less.accepts(Ordering::Less));
    assert!(!Operator::Less.accepts(Ordering::Equal));
    assert!(Operator::Greater.accepts(Ordering::Greater));
    assert!(Operator::GreaterEqual.accepts(Ordering::Equal));
    assert!(!Operator::GreaterEqual.accepts(Ordering::Less));
    assert!(Operator::LessEqual.accepts(Ordering::Less));
    assert!(!Operator::LessEqual.accepts(Ordering::Greater));
}

#[test]
fn table_file_roundtrip() {
    let mut t = Table::new(schema(), 5);
    t.insert_done(11);
    t.insert_done(12);
    let bytes = t.serialise().unwrap();
    assert_eq!(t.size, 2);
    // Header, three columns of one-letter names (2 + 1 + 2 bytes each), two record ids.
    assert_eq!(bytes.len(), 26 + 3 * 5 + 2 * 4);
    assert_eq!(&bytes[0..4], &69420u32.to_le_bytes());
    assert_eq!(&bytes[8..12], &2u32.to_le_bytes());
    assert_eq!(&bytes[12..14], &3u16.to_le_bytes());
    assert_eq!(&bytes[14..18], &3u32.to_le_bytes());
    assert_eq!(&bytes[18..26], &5u64.to_le_bytes());
    assert_eq!(&bytes[26..31], &[1, 0, b'a', 1, 0]);
    assert!(table_readable(&bytes));
    let back = Table::deserialise(&bytes).unwrap();
    assert_eq!(back.schema, schema());
    assert_eq!(back.records, vec![11, 12]);
    assert_eq!(back.next_si_no, 3);
    assert_eq!(back.lsn, 5);
    assert_eq!(back.size, 2);
}

#[test]
fn empty_table_roundtrip() {
    let mut t = Table::new(Vec::new(), 0);
    let bytes = t.serialise().unwrap();
    assert_eq!(bytes.len(), 26);
    let back = Table::deserialise(&bytes).unwrap();
    assert!(back.schema.is_empty());
    assert!(back.records.is_empty());
    assert_eq!(back.next_si_no, 1);
}

#[test]
fn table_file_damage_is_detected() {
    let mut t = Table::new(schema(), 1);
    t.insert_done(4);
    let bytes = t.serialise().unwrap();
    let mut bad_magic = bytes.clone();
    bad_magic[0] ^= 0xFF;
    assert!(table_readable(&bad_magic));
    assert_eq!(Table::deserialise(&bad_magic).unwrap_err(), DbError::CorruptedDataError);
    let mut bad_body = bytes.clone();
    let last = bad_body.len() - 1;
    bad_body[last] ^= 1;
    assert_eq!(Table::deserialise(&bad_body).unwrap_err(), DbError::CorruptedDataError);
    assert_eq!(Table::deserialise(&bytes[..10]).unwrap_err(), DbError::CorruptedDataError);
}

#[test]
fn table_with_columns_and_no_records_roundtrip() {
    let mut t = Table::new(schema(), 0);
    let bytes = t.serialise().unwrap();
    assert_eq!(bytes.len(), 26 + 3 * 5);
    assert!(table_readable(&bytes));
    let back = Table::deserialise(&bytes).unwrap();
    assert_eq!(back.schema, schema());
    assert!(back.records.is_empty());
    assert_eq!(back.size, 0);
    assert_eq!(back.next_si_no, t.next_si_no);
    assert_eq!(back.lsn, t.lsn);
    let mut cut = bytes.clone();
    cut.truncate(bytes.len() - 1);
    assert_eq!(Table::deserialise(&cut).unwrap_err(), DbError::CorruptedDataError);
}

#[test]
fn insert_bytes_store_values_in_schema_order() {
    let t = Table::new(schema(), 0);
    let reordered = vec![
        ("c".to_string(), Value::Int32(-5)),
        ("a".to_string(), Value::Uint32(3)),
        ("b".to_string(), Value::Varchar("yo".to_string())),
    ];
    let bytes = t.insert_bytes(reordered).unwrap();
    let mut expected = t.next_si_no.to_le_bytes().to_vec();
    expected.extend(Table::row_to_bytes(row(3, "yo", -5)));
    assert_eq!(bytes, expected);
    let back = t.extract(&bytes).unwrap();
    let mut want = vec![("SI".to_string(), Value::Uint32(t.next_si_no))];
    want.extend(row(3, "yo", -5));
    assert!(same_row(&back, &want));
    let doubled = vec![
        ("a".to_string(), Value::Uint32(3)),
        ("a".to_string(), Value::Uint32(4)),
        ("b".to_string(), Value::Varchar("yo".to_string())),
    ];
    assert_eq!(t.insert_bytes(doubled).unwrap_err(), DbError::InsufficientParams);
}

#[test]
fn row_bytes_and_back() {
    let bytes = Table::row_to_bytes(row(7, "hi", -1));
    assert_eq!(bytes, vec![7, 0, 0, 0, 2, 0, b'h', b'i', 255, 255, 255, 255]);
    let t = Table::new(schema(), 0);
    let mut stored = 5u32.to_le_bytes().to_vec();
    stored.extend_from_slice(&bytes);
    assert!(t.row_readable(&stored));
    let back = t.extract(&stored).unwrap();
    let mut expected = vec![("SI".to_string(), Value::Uint32(5))];
    expected.extend(row(7, "hi", -1));
    assert!(same_row(&back, &expected));
    assert!(!t.row_readable(&stored[..stored.len() - 1]));
    assert!(!t.row_readable(&[1, 2]));
}

#[test]
fn extract_refuses_bad_text() {
    let t = Table::new(vec![("b".to_string(), DataTypes::VARCHAR)], 0);
    let stored = vec![1, 0, 0, 0, 1, 0, 0xFF];
    assert!(t.row_readable(&stored));
    assert_eq!(t.extract(&stored).unwrap_err(), DbError::CorruptedDataError);
}

#[test]
fn insert_bytes_checks_columns() {
    let mut t = Table::new(schema(), 0);
    let bytes = t.insert_bytes(row(1, "x", 2)).unwrap();
    let mut expected = 1u32.to_le_bytes().to_vec();
    expected.extend(Table::row_to_bytes(row(1, "x", 2)));
    assert_eq!(bytes, expected);
    t.insert_done(9);
    assert_eq!(t.next_si_no, 2);
    assert_eq!(t.records, vec![9]);
    let short = vec![("a".to_string(), Value::Uint32(1))];
    assert_eq!(t.insert_bytes(short).unwrap_err(), DbError::InsufficientParams);
    let mut stranger = row(1, "x", 2);
    stranger.push(("zz".to_string(), Value::Uint32(3)));
    assert_eq!(t.insert_bytes(stranger).unwrap_err(), DbError::ColumnAbsent);
}

#[test]
fn replaying_table_log_entries() {
    let mut t = Table::new(schema(), 3);
    assert!(!t.replay(TaskType::Insert, 1, 3));
    assert!(t.records.is_empty());
    assert!(t.replay(TaskType::Insert, 1, 4));
    assert!(t.replay(TaskType::Insert, 2, 5));
    assert!(t.replay(TaskType::Insert, 1, 6));
    assert_eq!(t.records, vec![1, 2, 1]);
    assert!(t.replay(TaskType::Delete, 1, 7));
    assert_eq!(t.records, vec![2, 1]);
    assert!(t.replay(TaskType::Delete, 9, 8));
    assert_eq!(t.records, vec![2, 1]);
    assert_eq!(t.lsn, 8);
    assert!(!t.replay(TaskType::Delete, 2, 8));
    assert_eq!(t.records, vec![2, 1]);
}

#[test]
fn selecting_columns() {
    let t = Table::new(schema(), 0);
    let mut full = vec![("SI".to_string(), Value::Uint32(1))];
    full.extend(row(3, "q", 4));
    let picked = t.select_columns(vec![full.clone()], vec!["c".to_string(), "a".to_string()]);
    let expected = vec![("a".to_string(), Value::Uint32(3)), ("c".to_string(), Value::Int32(4))];
    assert!(same_row(&picked[0], &expected));
    let all = t.select_columns(vec![full.clone()], Vec::new());
    assert!(same_row(&all[0], &full));
    let none = t.select_columns(vec![full], vec!["zz".to_string()]);
    assert!(none[0].is_empty());
}

#[test]
fn updating_rows() {
    let mut stored = vec![("SI".to_string(), Value::Uint32(3))];
    stored.extend(row(1, "x", 2));
    let ups = vec![Condition { column: "a".to_string(), operator: Operator::Equal, value: Value::Uint32(9) }];
    let bytes = Table::updated_row_bytes(stored.clone(), &ups).unwrap();
    let mut expected = 3u32.to_le_bytes().to_vec();
    expected.extend(Table::row_to_bytes(row(9, "x", 2)));
    assert_eq!(bytes, expected);
    let twice = vec![
        Condition { column: "b".to_string(), operator: Operator::Equal, value: Value::Varchar("y".to_string()) },
        Condition { column: "b".to_string(), operator: Operator::Equal, value: Value::Varchar("zz".to_string()) },
    ];
    let bytes = Table::updated_row_bytes(stored.clone(), &twice).unwrap();
    let mut expected = 3u32.to_le_bytes().to_vec();
    expected.extend(Table::row_to_bytes(row(1, "zz", 2)));
    assert_eq!(bytes, expected);
    let wrong = vec![Condition { column: "a".to_string(), operator: Operator::Equal, value: Value::Varchar("9".to_string()) }];
    assert_eq!(Table::updated_row_bytes(stored, &wrong).unwrap_err(), DbError::TypeMismatch);
}

#[test]
fn removing_records() {
    let mut t = Table::new(schema(), 0);
    for id in [4u32, 7, 4, 9] {
        t.insert_done(id);
    }
    t.remove_record(4);
    assert_eq!(t.records, vec![7, 4, 9]);
    t.remove_record(5);
    assert_eq!(t.records, vec![7, 4, 9]);
    t.remove_record(9);
    assert_eq!(t.records, vec![7, 4]);
    assert_eq!(t.lsn, 0);
}

#[test]
fn replaying_the_table_log_on_a_table_set() {
    let mut set = TableSet::new();
    set.add("users".to_string(), Table::new(schema(), 0));
    set.add("items".to_string(), Table::new(schema(), 5));
    assert_eq!(set.find("items"), Some(1));
    assert_eq!(set.find("nope"), None);
    assert_eq!(set.names(), vec!["users".to_string(), "items".to_string()]);

    let mut w = TableWAL::from_header(0, &[]).unwrap();
    let mut file = w.header_bytes();
    let users = "users".to_string();
    let items = "items".to_string();
    let ghost = "ghost".to_string();
    for (task, id, name) in [
        (TaskType::Insert, 1u32, &users),
        (TaskType::Insert, 2, &items),
        (TaskType::Insert, 3, &ghost),
        (TaskType::Insert, 4, &users),
        (TaskType::Delete, 1, &users),
    ] {
        let (bytes, off) = w.add_log(task, id, name, None);
        assert_eq!(off as usize, file.len());
        file.extend(bytes);
    }
    // Entry 2 (sequence number 2) is not past the items table's 5.
    let changed = set.replay_log(&w, &file).unwrap();
    assert_eq!(changed, vec!["users".to_string()]);
    assert_eq!(set.tables[0].1.records, vec![4]);
    assert_eq!(set.tables[0].1.lsn, 5);
    assert_eq!(set.tables[1].1.records, Vec::<u32>::new());
    // A second replay changes nothing.
    assert_eq!(set.replay_log(&w, &file).unwrap(), Vec::<String>::new());
    assert_eq!(set.tables[0].1.records, vec![4]);
    let mut broken = file.clone();
    broken[10 + 10] = 7;
    let mut fresh = TableSet::new();
    fresh.add("users".to_string(), Table::new(schema(), 0));
    assert_eq!(fresh.replay_log(&w, &broken).unwrap_err(), DbError::CorruptedWAL);
    let (name, table) = set.remove(0);
    assert_eq!(name, "users");
    assert_eq!(table.records, vec![4]);
    assert_eq!(set.names(), vec!["items".to_string()]);
}

#[test]
fn scanning_stored_rows() {
    let t = Table::new(schema(), 0);
    let fo = |a: u32, b: u32| f32::from_bits(a).partial_cmp(&f32::from_bits(b));
    let mut stored = 8u32.to_le_bytes().to_vec();
    stored.extend(Table::row_to_bytes(row(30, "zed", -4)));
    let young = vec![Condition { column: "a".to_string(), operator: Operator::Less, value: Value::Uint32(18) }];
    assert!(t.scan_one(&stored, &young, &fo).unwrap().is_none());
    let named = vec![Condition { column: "b".to_string(), operator: Operator::Equal, value: Value::Varchar("zed".to_string()) }];
    let hit = t.scan_one(&stored, &named, &fo).unwrap().unwrap();
    assert_eq!(hit.len(), 4);
    assert!(same_value(&hit[0].1, &Value::Uint32(8)));
    let by_serial = vec![Condition { column: "SI".to_string(), operator: Operator::GreaterEqual, value: Value::Uint32(8) }];
    assert!(t.scan_one(&stored, &by_serial, &fo).unwrap().is_some());
    let wrong = vec![Condition { column: "c".to_string(), operator: Operator::Equal, value: Value::Uint32(1) }];
    assert_eq!(t.scan_one(&stored, &wrong, &fo).unwrap_err(), DbError::TypeMismatch);
}
