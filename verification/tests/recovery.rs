use rustdb::db_errors::DbError;
use rustdb::page::{PageFlags, PageHeader, PageType, PAGE_SIZE};
use rustdb::redo::Redo;
use rustdb::slotted_page::{page_loadable, Page};
use rustdb::table_wal::{self, TableWAL};
use rustdb::wal::{self, WAL};

fn fresh_page(id: u64) -> Page {
    Page::new(PageHeader::new(id, PageType::Data, 0), [0u8; PAGE_SIZE])
}

#[test]
fn flushed_page_loads_back() {
    let mut page = fresh_page(4);
    assert!(page.check_well_formed());
    // A clean page needs no write.
    assert_eq!(page.prepare_flush(), Ok(false));
    let a = vec![1u8, 2, 3];
    let b = vec![4u8; 20];
    page.write_record(1, &a, 3).unwrap();
    page.write_record(2, &b, 20).unwrap();
    page.delete_record(1).unwrap();
    page.header.lsn = 9;
    assert_eq!(page.header.flags, PageFlags::Dirty);
    assert_eq!(page.prepare_flush(), Ok(true));
    assert_eq!(page.header.flags, PageFlags::Clean);
    assert!(page_loadable(&page.buffer));
    let mut loaded = Page::from_buffer(page.buffer).unwrap();
    assert_eq!(loaded.header.page_id, 4);
    assert_eq!(loaded.header.lsn, 9);
    assert_eq!(loaded.header.flags, PageFlags::Clean);
    assert_eq!(loaded.trash.len(), 1);
    assert!(loaded.check_well_formed());
    assert_eq!(loaded.free_space(), page.free_space());
    assert_eq!(loaded.read_record(2).unwrap(), b);
    assert_eq!(loaded.read_record(1), Err(DbError::RecordAbsent));
}

#[test]
fn damaged_pages_do_not_load() {
    let mut page = fresh_page(5);
    page.write_record(1, &[9u8; 8], 8).unwrap();
    page.prepare_flush().unwrap();
    let mut flipped = page.buffer;
    flipped[PAGE_SIZE - 1] ^= 0x55;
    assert_eq!(Page::from_buffer(flipped).err(), Some(DbError::ChecksumMismatch));
    let mut bad_magic = page.buffer;
    bad_magic[0] ^= 1;
    assert_eq!(Page::from_buffer(bad_magic).err(), Some(DbError::CorruptedDataError));
    let mut corrupted = fresh_page(6);
    corrupted.header.flags = PageFlags::Corrupted;
    assert_eq!(corrupted.prepare_flush(), Err(DbError::PageCorrupted));
    corrupted.header.flags = PageFlags::Dirty;
    corrupted.prepare_flush().unwrap();
    let mut marked = corrupted.buffer;
    marked[14] = 2;
    assert_eq!(Page::from_buffer(marked).err(), Some(DbError::PageCorrupted));
}

#[test]
fn oversized_slot_area_is_not_loadable() {
    let mut page = fresh_page(7);
    page.header.lower = 9000;
    page.header.flags = PageFlags::Dirty;
    page.prepare_flush().unwrap();
    assert!(!page_loadable(&page.buffer));
    assert!(!page.check_well_formed());
}

#[test]
fn well_formedness_is_checked() {
    let mut page = fresh_page(8);
    page.write_record(1, &[1u8; 10], 10).unwrap();
    page.write_record(2, &[2u8; 10], 10).unwrap();
    assert!(page.check_well_formed());
    // Make the second slot point at the first record's bytes.
    let first_off = page.buffer[96 + 4..96 + 6].to_vec();
    page.buffer[106 + 4] = first_off[0];
    page.buffer[106 + 5] = first_off[1];
    assert!(!page.check_well_formed());
    let mut twin = fresh_page(9);
    twin.write_record(3, &[1u8; 4], 4).unwrap();
    twin.write_record(3, &[2u8; 4], 4).unwrap();
    assert!(!twin.check_well_formed());
}

#[test]
fn page_log_file_bookkeeping() {
    let mut w = WAL::from_header(0, &[]).unwrap();
    assert_eq!((w.length, w.last_lsn, w.file_size), (0, 0, 10));
    assert_eq!(WAL::from_header(7, &[0; 7]).err(), Some(DbError::CorruptedWAL));
    let data = vec![5u8; 6];
    let (e1, off1) = w.add_log(wal::TaskType::Write, 3, 7, Some(&data)).unwrap();
    assert_eq!(off1, 10);
    assert_eq!(e1.len(), 30);
    let (e2, off2) = w.add_log(wal::TaskType::Delete, 4, 8, None).unwrap();
    assert_eq!(off2, 40);
    let (e3, off3) = w.add_log(wal::TaskType::Update, 3, 7, Some(&data)).unwrap();
    assert_eq!(off3, 64);
    assert_eq!(w.add_log(wal::TaskType::Write, 1, 1, None).err(), Some(DbError::InsufficientParams));
    assert_eq!((w.length, w.last_lsn, w.file_size), (3, 3, 94));
    let mut file = w.header_bytes();
    assert_eq!(file, [3u64.to_le_bytes().to_vec(), 3u16.to_le_bytes().to_vec()].concat());
    file.extend(e1);
    file.extend(e2);
    file.extend(e3);
    let back = WAL::from_header(file.len() as u64, &file[..10]).unwrap();
    assert_eq!((back.length, back.last_lsn, back.file_size), (3, 3, 94));

    let (l1, d1, next) = w.get_log_any(&file, None).unwrap().unwrap();
    assert_eq!((l1.lsn, l1.page_id, l1.record_id, next), (1, 3, 7, 40));
    assert_eq!(d1, Some(data.clone()));
    let (l2, d2, next) = w.get_log_any(&file, Some(next)).unwrap().unwrap();
    assert_eq!((l2.lsn, l2.task_type, next), (2, wal::TaskType::Delete, 64));
    assert!(d2.is_none());
    let (l3, _, next) = w.get_log_any(&file, Some(next)).unwrap().unwrap();
    assert_eq!((l3.lsn, l3.task_type), (3, wal::TaskType::Update));
    assert!(w.get_log_any(&file, Some(next)).unwrap().is_none());
    assert_eq!(w.get_log_any(&file, Some(3)).unwrap().unwrap().0.lsn, 1);

    let (f, _, it) = w.find_next_log(&file, 0, 3, None).unwrap().unwrap();
    assert_eq!(f.lsn, 1);
    let (f, _, it) = w.find_next_log(&file, 1, 3, Some(it)).unwrap().unwrap();
    assert_eq!(f.lsn, 3);
    assert!(w.find_next_log(&file, 3, 3, Some(it)).unwrap().is_none());
    assert_eq!(w.find_next_log(&file, 0, 4, None).unwrap().unwrap().0.lsn, 2);
    assert!(w.find_next_log(&file, 0, 99, None).unwrap().is_none());
    assert_eq!(w.find_next_log(&file, 0, 3, Some(4)).err(), Some(DbError::FileError));
    let mut broken = file.clone();
    broken[10 + 10] = 9;
    assert_eq!(w.get_log_any(&broken, None).err(), Some(DbError::CorruptedWAL));
    w.reset();
    assert_eq!((w.length, w.last_lsn, w.file_size), (0, 3, 10));
    assert!(w.get_log_any(&file, None).unwrap().is_none());
}

#[test]
fn table_log_file_bookkeeping() {
    let mut w = TableWAL::from_header(0, &[]).unwrap();
    assert_eq!(TableWAL::from_header(9, &[0; 9]).err(), Some(DbError::CorruptedWAL));
    let name = String::from("users");
    let (e1, off1) = w.add_log(table_wal::TaskType::Insert, 12, &name, Some(&[1, 2, 3]));
    let (e2, off2) = w.add_log(table_wal::TaskType::Delete, 12, &name, None);
    assert_eq!((off1, off2), (10, 10 + 26));
    assert_eq!((w.length, w.last_lsn, w.file_size), (2, 2, 10 + 26 + 23));
    let mut file = w.header_bytes();
    file.extend(e1);
    file.extend(e2);
    let (l1, d1, next) = w.get_log_any(&file, None).unwrap().unwrap();
    assert_eq!((l1.lsn, l1.record_id, l1.table_name.as_str(), next), (1, 12, "users", 36));
    assert_eq!(d1, Some(vec![1, 2, 3]));
    let (l2, d2, next) = w.get_log_any(&file, Some(next)).unwrap().unwrap();
    assert_eq!((l2.lsn, l2.task_type), (2, table_wal::TaskType::Delete));
    assert!(d2.is_none());
    assert!(w.get_log_any(&file, Some(next)).unwrap().is_none());
    w.reset();
    assert_eq!((w.length, w.last_lsn, w.file_size), (0, 2, 10));
}

fn log(task: wal::TaskType, lsn: u64, page: u64, record: u32, len: usize) -> wal::Log {
    wal::Log { log_size: 24 + len as u16, lsn, task_type: task, page_id: page, record_id: record }
}

#[test]
fn redo_during_checkpoint() {
    let mut page = fresh_page(2);
    page.header.lsn = 5;
    let data = vec![7u8; 12];
    // Already reflected.
    assert_eq!(page.redo(&log(wal::TaskType::Write, 5, 2, 1, 12), Some(&data)), Ok(Redo::Skipped));
    assert_eq!(page.read_record(1), Err(DbError::RecordAbsent));
    assert_eq!(page.redo(&log(wal::TaskType::Write, 6, 2, 1, 12), Some(&data)), Ok(Redo::Applied));
    assert_eq!(page.header.lsn, 6);
    assert_eq!(page.read_record(1).unwrap(), data);
    let data2 = vec![8u8; 4];
    assert_eq!(page.redo(&log(wal::TaskType::Update, 7, 2, 1, 4), Some(&data2)), Ok(Redo::Applied));
    assert_eq!(page.read_record(1).unwrap(), data2);
    assert_eq!(page.redo(&log(wal::TaskType::Write, 8, 2, 2, 0), None), Err(DbError::CorruptedWAL));
    let huge = vec![1u8; PAGE_SIZE];
    assert_eq!(page.redo(&log(wal::TaskType::Write, 8, 2, 2, 0), Some(&huge)), Ok(Redo::NoRoom));
    assert_eq!(page.header.lsn, 8);
    assert_eq!(page.redo(&log(wal::TaskType::Delete, 9, 2, 1, 0), None), Ok(Redo::Applied));
    assert_eq!(page.read_record(1), Err(DbError::RecordAbsent));
    assert_eq!(page.redo(&log(wal::TaskType::Delete, 10, 2, 1, 0), None), Err(DbError::RecordAbsent));
    assert_eq!(page.header.lsn, 9);
}
