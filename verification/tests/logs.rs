use rustdb::db_errors::DbError;
use rustdb::table_wal;
use rustdb::wal;

#[test]
fn page_log_write_roundtrip() {
    let data = vec![1u8, 2, 3, 4];
    let log = wal::Log::for_task(wal::TaskType::Write, 9, 77, 5, Some(&data)).unwrap();
    assert_eq!(log.lsn, 10);
    assert_eq!(log.log_size, wal::LOG_HEADER_SIZE + 4);
    let bytes = log.serialise(Some(&data)).unwrap();
    assert_eq!(bytes.len(), 28);
    assert_eq!(&bytes[0..2], &[28, 0]);
    assert_eq!(&bytes[2..10], &10u64.to_le_bytes());
    assert_eq!(&bytes[10..12], &[0, 0]);
    assert_eq!(&bytes[12..20], &77u64.to_le_bytes());
    assert_eq!(&bytes[20..24], &5u32.to_le_bytes());
    let mut file = bytes.clone();
    file.extend_from_slice(&[0xEE; 10]);
    let (back, back_data) = wal::Log::deserialise(&file).unwrap();
    assert_eq!(back.log_size, 28);
    assert_eq!(back.lsn, 10);
    assert_eq!(back.task_type, wal::TaskType::Write);
    assert_eq!(back.page_id, 77);
    assert_eq!(back.record_id, 5);
    assert_eq!(back_data, Some(data));
}

#[test]
fn page_log_delete_has_no_data() {
    let log = wal::Log::for_task(wal::TaskType::Delete, 0, 3, 8, None).unwrap();
    assert_eq!(log.log_size, wal::LOG_HEADER_SIZE);
    let bytes = log.serialise(None).unwrap();
    assert_eq!(bytes.len(), 24);
    assert_eq!(&bytes[10..12], &[2, 0]);
    let (back, data) = wal::Log::deserialise(&bytes).unwrap();
    assert_eq!(back.task_type, wal::TaskType::Delete);
    assert_eq!(back.lsn, 1);
    assert!(data.is_none());
}

#[test]
fn page_log_needs_data_for_a_write() {
    let r = wal::Log::for_task(wal::TaskType::Update, 0, 3, 8, None);
    assert_eq!(r.unwrap_err(), DbError::InsufficientParams);
    let log = wal::Log { log_size: 30, lsn: 1, task_type: wal::TaskType::Update, page_id: 1, record_id: 1 };
    assert_eq!(log.serialise(None).unwrap_err(), DbError::InsufficientParams);
}

#[test]
fn page_log_corrupt_inputs() {
    assert_eq!(wal::Log::deserialise(&[5]).unwrap_err(), DbError::CorruptedWAL);
    // A size below the fixed part.
    let mut short = vec![0u8; 24];
    short[0] = 10;
    assert_eq!(wal::Log::deserialise(&short).unwrap_err(), DbError::CorruptedWAL);
    // A size beyond the end of the file.
    let mut long = vec![0u8; 24];
    long[0] = 40;
    assert_eq!(wal::Log::deserialise(&long).unwrap_err(), DbError::CorruptedWAL);
    // An unknown task code.
    let mut bad = vec![0u8; 24];
    bad[0] = 24;
    bad[10] = 3;
    assert_eq!(wal::Log::deserialise(&bad).unwrap_err(), DbError::CorruptedWAL);
}

#[test]
fn table_log_insert_roundtrip() {
    let name = String::from("users");
    let row = vec![9u8, 8, 7];
    let log = table_wal::Log::for_task(table_wal::TaskType::Insert, 41, 12, &name, Some(&row));
    assert_eq!(log.lsn, 42);
    assert_eq!(log.data_size, 3);
    assert_eq!(log.log_size, 18 + 5 + 3);
    let bytes = log.serialise(Some(&row)).unwrap();
    assert_eq!(bytes.len(), 26);
    assert_eq!(&bytes[18..23], b"users");
    assert_eq!(&bytes[23..26], &[9, 8, 7]);
    let (back, data) = table_wal::Log::deserialise(&bytes).unwrap();
    assert_eq!(back.table_name, "users");
    assert_eq!(back.record_id, 12);
    assert_eq!(back.lsn, 42);
    assert_eq!(back.task_type, table_wal::TaskType::Insert);
    assert_eq!(data, Some(row));
}

#[test]
fn table_log_delete_roundtrip() {
    let name = String::from("t");
    let log = table_wal::Log::for_task(table_wal::TaskType::Delete, 0, 4, &name, None);
    assert_eq!(log.log_size, 19);
    assert_eq!(log.data_size, 0);
    let bytes = log.serialise(None).unwrap();
    let (back, data) = table_wal::Log::deserialise(&bytes).unwrap();
    assert_eq!(back.task_type, table_wal::TaskType::Delete);
    assert_eq!(back.table_name, "t");
    assert!(data.is_none());
}

#[test]
fn table_log_corrupt_inputs() {
    assert_eq!(table_wal::Log::deserialise(&[]).unwrap_err(), DbError::CorruptedWAL);
    let name = String::from("ab");
    let log = table_wal::Log::for_task(table_wal::TaskType::Delete, 0, 4, &name, None);
    let bytes = log.serialise(None).unwrap();
    let mut bad_task = bytes.clone();
    bad_task[10] = 5;
    assert_eq!(table_wal::Log::deserialise(&bad_task).unwrap_err(), DbError::CorruptedWAL);
    let mut bad_name = bytes.clone();
    bad_name[18] = 0xFF;
    assert_eq!(table_wal::Log::deserialise(&bad_name).unwrap_err(), DbError::CorruptedWAL);
    let mut bad_size = bytes.clone();
    bad_size[16] = 9;
    assert_eq!(table_wal::Log::deserialise(&bad_size).unwrap_err(), DbError::CorruptedWAL);
}

#[test]
fn table_log_recovery_is_needed_only_with_entries() {
    let at = |file_size: u64| table_wal::TableWAL { length: 0, last_lsn: 0, file_size };
    assert_eq!(at(10).needs_recovery(), Ok(false));
    assert_eq!(at(9).needs_recovery(), Err(DbError::CorruptedWAL));
    assert_eq!(at(0).needs_recovery(), Err(DbError::CorruptedWAL));
    assert_eq!(at(60).needs_recovery(), Ok(true));
}
