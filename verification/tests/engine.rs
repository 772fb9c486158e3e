use rustdb::b_plus_tree::BPlusTree;
use rustdb::database::{drop_result, encode_query_result, plan, Command, QueryResult};
use rustdb::db_errors::DbError;
use rustdb::index::{Change, Index, Recovery};
use rustdb::lru_cache::{find_free_in_metadata, LRUCache};
use rustdb::page::{PageFlags, PageHeader, PageType, PAGE_SIZE};
use rustdb::parser::{Query, QueryOperation};
use rustdb::slotted_page::Page;
use rustdb::tables::{
    parse_table_names, table_names_bytes, table_names_readable, text_sign_of, Condition, DataTypes, Operator, Table,
    Value,
};
use rustdb::wal;
use std::cmp::Ordering;

fn fresh_page(id: u64) -> Page {
    Page::new(PageHeader::new(id, PageType::Data, 0), [0u8; PAGE_SIZE])
}

fn float_order(a: u32, b: u32) -> Option<Ordering> {
    f32::from_bits(a).partial_cmp(&f32::from_bits(b))
}

fn float_text(b: u32) -> String {
    f32::from_bits(b).to_string()
}

fn empty_query(task: QueryOperation) -> Query {
    Query {
        table_name: None,
        db_name: None,
        task,
        row: None,
        columns: None,
        conditions: None,
        updates: None,
        schema: None,
    }
}

#[test]
fn index_steps_write_move_and_delete() {
    let mut ix = Index::new(BPlusTree::new(), 1);
    let mut p1 = fresh_page(1);
    let rec = vec![3u8; 40];
    assert_eq!(ix.store_new(&mut p1, &rec, 11), Ok(Change::Done));
    assert_eq!(p1.header.lsn, 11);
    assert_eq!(ix.register_new(1), Ok(1));
    assert_eq!(ix.next_record_id, 2);
    assert_eq!(ix.locate(1), Ok(1));
    assert_eq!(ix.locate(2), Err(DbError::RecordAbsent));
    assert_eq!(p1.read_record(1).unwrap(), rec);

    // A smaller record stays in place.
    let small = vec![4u8; 10];
    assert_eq!(ix.update_in(&mut p1, 1, &small, 12), Ok(Change::Done));
    assert_eq!(p1.read_record(1).unwrap(), small);
    // One that no longer fits leaves the page.
    let big = vec![5u8; PAGE_SIZE - 300];
    let filler = vec![6u8; 200];
    ix.store_new(&mut p1, &filler, 13).unwrap();
    ix.register_new(1).unwrap();
    assert_eq!(ix.update_in(&mut p1, 1, &big, 14), Ok(Change::MustMove));
    assert_eq!(p1.header.lsn, 14);
    assert_eq!(p1.read_record(1), Err(DbError::RecordAbsent));
    let mut p2 = fresh_page(2);
    assert_eq!(ix.moved_into(&mut p2, 1, &big, 15), Ok(Change::Done));
    assert_eq!(ix.rehome(1, 2), Ok(()));
    assert_eq!(ix.locate(1), Ok(2));
    assert_eq!(ix.locate(2), Ok(1));
    assert_eq!(ix.rehome(9, 2), Err(DbError::RecordAbsent));

    assert_eq!(ix.update_in(&mut p2, 7, &small, 16), Err(DbError::RecordAbsent));
    assert_eq!(ix.remove_from(&mut p2, 1, 17), Ok(Change::Done));
    assert_eq!(p2.read_record(1), Err(DbError::RecordAbsent));
    assert_eq!(ix.forget(1), Ok(()));
    assert_eq!(ix.locate(1), Err(DbError::RecordAbsent));
    assert_eq!(ix.forget(1), Err(DbError::RecordAbsent));
    assert_eq!(ix.remove_from(&mut p2, 1, 18), Err(DbError::RecordAbsent));
}

#[test]
fn index_recovery_steps() {
    let mut ix = Index::new(BPlusTree::new(), 1);
    let mut page = fresh_page(3);
    page.header.lsn = 2;
    let data = vec![1u8; 16];
    let w = |lsn: u64, record: u32, len: usize| wal::Log {
        log_size: 24 + len as u16,
        lsn,
        task_type: wal::TaskType::Write,
        page_id: 3,
        record_id: record,
    };
    assert_eq!(ix.recover_entry(&mut page, &w(2, 1, 16), Some(&data)), Ok(Recovery::Skipped));
    assert_eq!(ix.recover_entry(&mut page, &w(3, 1, 16), Some(&data)), Ok(Recovery::Applied));
    assert_eq!(ix.locate(1), Ok(3));
    assert_eq!(ix.next_record_id, 2);
    assert_eq!(page.header.lsn, 3);
    assert_eq!(ix.recover_entry(&mut page, &w(4, 2, 0), None), Err(DbError::CorruptedWAL));
    let huge = vec![2u8; PAGE_SIZE];
    assert_eq!(ix.recover_entry(&mut page, &w(4, 2, 8192), Some(&huge)), Ok(Recovery::NeedsRoom));
    assert_eq!(page.header.lsn, 4);
    let mut other = fresh_page(4);
    let fits = vec![2u8; 100];
    assert_eq!(ix.recover_into(&mut other, &w(4, 2, 100), &fits), Ok(()));
    assert_eq!(other.header.lsn, 4);
    assert_eq!(other.read_record(2).unwrap(), fits);
    assert_eq!(ix.locate(2), Ok(4));
    assert_eq!(ix.next_record_id, 3);
    let upd = wal::Log { log_size: 24, lsn: 5, task_type: wal::TaskType::Update, page_id: 3, record_id: 1 };
    assert_eq!(ix.recover_entry(&mut page, &upd, Some(&data)), Ok(Recovery::Update));
    let del = wal::Log { log_size: 24, lsn: 6, task_type: wal::TaskType::Delete, page_id: 3, record_id: 1 };
    assert_eq!(ix.recover_entry(&mut page, &del, None), Ok(Recovery::Applied));
    assert_eq!(ix.locate(1), Err(DbError::RecordAbsent));
    assert_eq!(page.read_record(1), Err(DbError::RecordAbsent));
    assert_eq!(page.header.lsn, 6);
    let far = wal::Log { log_size: 40, lsn: 7, task_type: wal::TaskType::Write, page_id: 3, record_id: 70000 };
    assert_eq!(ix.recover_entry(&mut page, &far, Some(&data)), Err(DbError::CorruptedWAL));
    let old_far = wal::Log { lsn: 1, ..far };
    assert_eq!(ix.recover_entry(&mut page, &old_far, Some(&data)), Ok(Recovery::Skipped));
    let mut full = Index::new(BPlusTree::new(), u16::MAX);
    let last = wal::Log { log_size: 40, lsn: 8, task_type: wal::TaskType::Write, page_id: 3, record_id: 9 };
    assert_eq!(full.recover_entry(&mut page, &last, Some(&data)), Err(DbError::SpaceOver));
    assert_eq!(page.header.lsn, 6);
}

#[test]
fn free_page_search() {
    let mut cache = LRUCache::new(4);
    let mut full = fresh_page(1);
    full.write_record(1, &vec![0u8; PAGE_SIZE - 96 - 20], PAGE_SIZE - 96 - 20).unwrap();
    cache.set_new(full).unwrap();
    assert_eq!(cache.find_free_cached(50), None);
    cache.set_new(fresh_page(2)).unwrap();
    assert_eq!(cache.find_free_cached(50), Some(2));
    assert_eq!(cache.find_free_cached(5), Some(2));

    let mut meta = Vec::new();
    meta.extend(1u64.to_le_bytes());
    meta.extend(5u16.to_le_bytes());
    meta.extend(2u64.to_le_bytes());
    meta.extend(500u16.to_le_bytes());
    meta.extend(3u64.to_le_bytes());
    meta.extend(8000u16.to_le_bytes());
    let db_size = 3 * PAGE_SIZE as u64;
    assert_eq!(find_free_in_metadata(&meta, db_size, 100), Some(2));
    assert_eq!(find_free_in_metadata(&meta, db_size, 490), Some(2));
    assert_eq!(find_free_in_metadata(&meta, db_size, 491), Some(3));
    assert_eq!(find_free_in_metadata(&meta, db_size, 8000), None);
    // Only the pages the database file holds count.
    assert_eq!(find_free_in_metadata(&meta, 2 * PAGE_SIZE as u64, 1000), None);
    assert_eq!(find_free_in_metadata(&meta[..25], db_size, 1000), None);
}

#[test]
fn table_list_file() {
    let names = vec!["users".to_string(), "ördnung".to_string(), String::new()];
    let bytes = table_names_bytes(&names);
    assert_eq!(&bytes[0..7], &[5, 0, b'u', b's', b'e', b'r', b's']);
    assert!(table_names_readable(&bytes));
    assert_eq!(parse_table_names(&bytes).unwrap(), names);
    assert!(!table_names_readable(&bytes[..4]));
    assert!(!table_names_readable(&[1]));
    let bad = vec![1, 0, 0xFF];
    assert!(table_names_readable(&bad));
    assert_eq!(parse_table_names(&bad).unwrap_err(), DbError::CorruptedDataError);
    assert_eq!(parse_table_names(&[]).unwrap(), Vec::<String>::new());
}

#[test]
fn comparing_values() {
    assert_eq!(text_sign_of("abc", "abd"), -1);
    assert_eq!(text_sign_of("ab", "abc"), -1);
    assert_eq!(text_sign_of("b", "abc"), 1);
    assert_eq!(text_sign_of("é", "z"), 1);
    assert_eq!(text_sign_of("same", "same"), 0);
    let f = |x: f32| Value::Float32(x.to_bits());
    assert_eq!(Value::Int32(-3).compare(&Value::Int32(2), &float_order), Ok(Ordering::Less));
    assert_eq!(Value::Uint32(9).compare(&Value::Uint32(9), &float_order), Ok(Ordering::Equal));
    assert_eq!(f(2.5).compare(&f(-1.0), &float_order), Ok(Ordering::Greater));
    assert_eq!(f(f32::NAN).compare(&f(1.0), &float_order), Err(DbError::InvalidComparison));
    assert_eq!(Value::Uint32(1).compare(&Value::Int32(1), &float_order), Err(DbError::TypeMismatch));
    assert_eq!(
        Value::Varchar("Bob".to_string()).compare(&Value::Varchar("Al".to_string()), &float_order),
        Ok(Ordering::Greater)
    );
}

#[test]
fn rows_against_conditions() {
    let row = vec![
        ("SI".to_string(), Value::Uint32(1)),
        ("name".to_string(), Value::Varchar("Balls".to_string())),
        ("age".to_string(), Value::Uint32(20)),
    ];
    let cond = |col: &str, op: Operator, v: Value| Condition { column: col.to_string(), operator: op, value: v };
    assert_eq!(Table::row_satisfies(&row, &vec![], &float_order), Ok(true));
    let adults = vec![cond("age", Operator::GreaterEqual, Value::Uint32(18))];
    assert_eq!(Table::row_satisfies(&row, &adults, &float_order), Ok(true));
    let older = vec![cond("age", Operator::Greater, Value::Uint32(30))];
    assert_eq!(Table::row_satisfies(&row, &older, &float_order), Ok(false));
    let both = vec![
        cond("name", Operator::Equal, Value::Varchar("Balls".to_string())),
        cond("age", Operator::LessEqual, Value::Uint32(20)),
    ];
    assert_eq!(Table::row_satisfies(&row, &both, &float_order), Ok(true));
    let missing = vec![cond("salary", Operator::Equal, Value::Uint32(0))];
    assert_eq!(Table::row_satisfies(&row, &missing, &float_order), Err(DbError::ColumnAbsent));
    let wrong_type = vec![cond("age", Operator::Equal, Value::Int32(20))];
    assert_eq!(Table::row_satisfies(&row, &wrong_type, &float_order), Err(DbError::TypeMismatch));
    // A failing condition stops the check before a later one could fail.
    let stop = vec![cond("age", Operator::Less, Value::Uint32(1)), cond("salary", Operator::Equal, Value::Uint32(0))];
    assert_eq!(Table::row_satisfies(&row, &stop, &float_order), Ok(false));
}

#[test]
fn planning_queries() {
    let mut q = empty_query(QueryOperation::Insert);
    q.table_name = Some("users".to_string());
    assert_eq!(plan(q).err(), Some(DbError::InsufficientParams));
    let mut q = empty_query(QueryOperation::Insert);
    q.table_name = Some("users".to_string());
    q.row = Some(vec![("age".to_string(), Value::Uint32(3))]);
    match plan(q) {
        Ok(Command::Insert { table_name, row }) => {
            assert_eq!(table_name, "users");
            assert_eq!(row.len(), 1);
        },
        _ => panic!("insert expected"),
    }
    let mut q = empty_query(QueryOperation::Select);
    q.table_name = Some("users".to_string());
    q.conditions = Some(Vec::new());
    assert_eq!(plan(q).err(), Some(DbError::InsufficientParams));
    let mut q = empty_query(QueryOperation::CreateTable);
    q.table_name = Some("t".to_string());
    q.schema = Some(vec![("a".to_string(), DataTypes::UINT32)]);
    assert!(matches!(plan(q), Ok(Command::CreateTable { .. })));
    assert!(matches!(plan(empty_query(QueryOperation::Shutdown)), Ok(Command::Shutdown)));
    assert!(matches!(plan(empty_query(QueryOperation::DropDB)), Err(DbError::InsufficientParams)));
    assert!(matches!(plan(empty_query(QueryOperation::GetSchema)), Ok(Command::GetSchema { name: None })));
}

#[test]
fn answers_in_json() {
    assert_eq!(encode_query_result(&QueryResult::Success, &float_text), r#"{"success":true,"type":"success"}"#);
    assert_eq!(encode_query_result(&QueryResult::Dropped, &float_text), r#"{"success":true,"type":"success"}"#);
    assert_eq!(
        encode_query_result(&QueryResult::Count(1207), &float_text),
        r#"{"success":true,"type":"count","count":1207}"#
    );
    assert_eq!(
        encode_query_result(&QueryResult::Count(0), &float_text),
        r#"{"success":true,"type":"count","count":0}"#
    );
    let rows = vec![
        vec![
            ("name".to_string(), Value::Varchar("a\"b".to_string())),
            ("age".to_string(), Value::Uint32(20)),
        ],
        vec![("d".to_string(), Value::Int32(-2147483648)), ("f".to_string(), Value::Float32(1.5f32.to_bits()))],
        vec![],
    ];
    assert_eq!(
        encode_query_result(&QueryResult::Rows(rows), &float_text),
        r#"{"success":true,"type":"rows","rows":[[{"column":"name","value":"a\"b"},{"column":"age","value":20}],[{"column":"d","value":-2147483648},{"column":"f","value":1.5}],[]]}"#
    );
    assert_eq!(
        encode_query_result(&QueryResult::Rows(vec![]), &float_text),
        r#"{"success":true,"type":"rows","rows":[]}"#
    );
    assert!(matches!(drop_result("main", "main"), QueryResult::Dropped));
    assert!(matches!(drop_result("other", "main"), QueryResult::Success));
}

#[test]
fn page_space_entries() {
    let (off, entry) = rustdb::lru_cache::page_space_entry(3, 700);
    assert_eq!(off, 20);
    assert_eq!(entry, [3u64.to_le_bytes().to_vec(), 700u16.to_le_bytes().to_vec()].concat());
    let mut meta = vec![0u8; 30];
    meta[20..30].copy_from_slice(&entry);
    assert_eq!(find_free_in_metadata(&meta, 3 * PAGE_SIZE as u64, 600), Some(3));
    assert_eq!(find_free_in_metadata(&meta, 3 * PAGE_SIZE as u64, 691), None);
}

#[test]
fn rebuilt_page_decides_whether_a_record_moves() {
    let mut ix = Index::new(BPlusTree::new(), 1);
    let mut page = fresh_page(5);
    ix.store_new(&mut page, &[4u8; 8], 1).unwrap();
    ix.register_new(5).unwrap();
    assert_eq!(ix.must_move_after_rebuild(&mut page, 1), Ok(false));
    assert_eq!(ix.must_move_after_rebuild(&mut page, 2), Ok(true));
    page.header.flags = PageFlags::Corrupted;
    assert_eq!(ix.must_move_after_rebuild(&mut page, 1), Err(DbError::PageCorrupted));
}

#[test]
fn passed_over_entries_still_bring_the_index_up_to_date() {
    let mut ix = Index::new(BPlusTree::new(), 1);
    let mut page = fresh_page(3);
    page.write_record(5, &[9u8; 4], 4).unwrap();
    page.header.lsn = 10;
    let write = wal::Log { log_size: 28, lsn: 7, task_type: wal::TaskType::Write, page_id: 3, record_id: 5 };
    assert_eq!(ix.recover_entry(&mut page, &write, Some(&vec![9u8; 4])), Ok(Recovery::Skipped));
    assert_eq!(ix.locate(5), Ok(3));
    assert_eq!(ix.next_record_id, 6);
    assert_eq!(page.header.lsn, 10);
    assert_eq!(ix.recover_entry(&mut page, &write, Some(&vec![9u8; 4])), Ok(Recovery::Skipped));
    assert_eq!(ix.locate(5), Ok(3));
    let mut ix2 = Index::new(BPlusTree::new(), 1);
    ix2.register_new(3).unwrap();
    let gone = wal::Log { log_size: 24, lsn: 8, task_type: wal::TaskType::Delete, page_id: 3, record_id: 1 };
    assert_eq!(ix2.recover_entry(&mut page, &gone, None), Ok(Recovery::Skipped));
    assert_eq!(ix2.locate(1), Err(DbError::RecordAbsent));
}
