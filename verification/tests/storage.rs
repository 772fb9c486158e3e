use rustdb::crc32::crc32;
use rustdb::db_errors::DbError;
use rustdb::page::{PageFlags, PageHeader, PageType, MAGIC, PAGE_SIZE};
use rustdb::slotted_page::Page;

fn fresh_page(id: u64) -> Page {
    let header = PageHeader::new(id, PageType::Data, 0);
    Page::new(header, [0u8; PAGE_SIZE])
}

#[test]
fn crc32_check_value() {
    assert_eq!(crc32(b"123456789"), 0xCBF4_3926);
    assert_eq!(crc32(b""), 0);
    assert_eq!(crc32(b"a"), 0xE8B7_BE43);
}

#[test]
fn header_roundtrip() {
    let mut h = PageHeader::new(42, PageType::BTreeLeaf, 0);
    h.lsn = 7;
    h.item_count = 3;
    h.lower = 126;
    h.upper = 8000;
    h.flags = PageFlags::Dirty;
    let mut buf = [0xAAu8; PAGE_SIZE];
    h.serialise(&mut buf);
    assert_eq!(&buf[96..100], &[0xAA, 0xAA, 0xAA, 0xAA]);
    let back = PageHeader::deserialise(&mut buf).unwrap();
    assert_eq!(back.magic, MAGIC);
    assert_eq!(back.page_id, 42);
    assert_eq!(back.page_type, PageType::BTreeLeaf);
    assert_eq!(back.flags, PageFlags::Dirty);
    assert_eq!(back.lsn, 7);
    assert_eq!(back.item_count, 3);
    assert_eq!(back.lower, 126);
    assert_eq!(back.upper, 8000);
}

#[test]
fn header_bad_magic_and_codes() {
    let h = PageHeader::new(1, PageType::Data, 0);
    let mut buf = [0u8; PAGE_SIZE];
    h.serialise(&mut buf);
    let mut bad_magic = buf;
    bad_magic[0] ^= 1;
    assert_eq!(PageHeader::deserialise(&mut bad_magic).unwrap_err(), DbError::CorruptedDataError);
    let mut bad_type = buf;
    bad_type[12] = 9;
    assert_eq!(PageHeader::deserialise(&mut bad_type).unwrap_err(), DbError::CorruptedDataError);
    let mut bad_flag = buf;
    bad_flag[14] = 7;
    assert_eq!(PageHeader::deserialise(&mut bad_flag).unwrap_err(), DbError::CorruptedDataError);
}

#[test]
fn fresh_page_space() {
    let page = fresh_page(3);
    assert_eq!(page.free_space(), (PAGE_SIZE - 96) as u32);
    assert!(page.has_space(100));
    assert!(!page.has_space(PAGE_SIZE));
}

#[test]
fn page_write_read_update_delete() {
    let mut page = fresh_page(5);
    let a = vec![1u8, 2, 3, 4, 5];
    let b = vec![9u8; 40];
    assert_eq!(page.write_record(1, &a, a.len()), Ok(5));
    assert_eq!(page.write_record(2, &b, b.len()), Ok(40));
    assert_eq!(page.read_record(1).unwrap(), a);
    assert_eq!(page.read_record(2).unwrap(), b);
    assert_eq!(page.read_record(3), Err(DbError::RecordAbsent));
    assert_eq!(page.free_space(), (PAGE_SIZE - 96 - 20 - 45) as u32);

    // A shorter update stays in place.
    let a2 = vec![7u8, 7];
    assert_eq!(page.update_record(1, &a2, a2.len()), Ok(2));
    assert_eq!(page.read_record(1).unwrap(), a2);

    // A longer update moves the record.
    let a3 = vec![8u8; 64];
    assert_eq!(page.update_record(1, &a3, a3.len()), Ok(64));
    assert_eq!(page.read_record(1).unwrap(), a3);
    assert_eq!(page.read_record(2).unwrap(), b);

    assert_eq!(page.delete_record(2), Ok(()));
    assert_eq!(page.read_record(2), Err(DbError::RecordAbsent));
    assert_eq!(page.delete_record(2), Err(DbError::RecordAbsent));
    assert_eq!(page.update_record(9, &a2, a2.len()), Err(DbError::RecordAbsent));
}

#[test]
fn page_reuses_deleted_space() {
    let mut page = fresh_page(6);
    let a = vec![1u8; 30];
    page.write_record(1, &a, a.len()).unwrap();
    let before = page.free_space();
    page.delete_record(1).unwrap();
    assert_eq!(page.free_space(), before + 30);
    let c = vec![2u8; 20];
    page.write_record(2, &c, c.len()).unwrap();
    assert_eq!(page.read_record(2).unwrap(), c);
}

#[test]
fn page_space_over() {
    let mut page = fresh_page(7);
    let big = vec![3u8; PAGE_SIZE - 96 - 10];
    assert_eq!(page.write_record(1, &big, big.len()), Ok(big.len()));
    let one = vec![1u8];
    assert_eq!(page.write_record(2, &one, 1), Err(DbError::SpaceOver));
    assert_eq!(page.read_record(1).unwrap(), big);
}

#[test]
fn corrupted_page_refuses_work() {
    let mut page = fresh_page(8);
    page.header.flags = PageFlags::Corrupted;
    let a = vec![1u8, 2];
    assert_eq!(page.write_record(1, &a, 2), Err(DbError::PageCorrupted));
    assert_eq!(page.read_record(1), Err(DbError::PageCorrupted));
    assert_eq!(page.delete_record(1), Err(DbError::PageCorrupted));
    assert_eq!(page.update_record(1, &a, 2), Err(DbError::PageCorrupted));
    assert_eq!(page.free_space(), 0);
    assert!(!page.has_space(1));
}

#[test]
fn error_names_and_messages() {
    assert_eq!(DbError::DuplicateKey.name(), "DuplicateKey");
    assert_eq!(DbError::RecordAbsent.message(), "Record doesn't exist.");
    assert_eq!(DbError::QueueClosed.message(), "Queue is full.");
}

#[test]
fn write_record_layout_on_a_fresh_page() {
    let mut p = fresh_page(1);
    assert_eq!(p.write_record(5, &[1, 2, 3], 3), Ok(3));
    assert_eq!(p.header.upper, 8189);
    assert_eq!(p.header.lower, 106);
    assert_eq!(p.header.item_count, 1);
    assert_eq!(p.header.flags, PageFlags::Dirty);
    assert_eq!(&p.buffer[8189..8192], &[1, 2, 3]);
    assert_eq!(&p.buffer[96..106], &[5, 0, 0, 0, 0xFD, 0x1F, 3, 0, 0, 0]);
    assert_eq!(p.free_space(), 8083);
}

#[test]
fn write_record_reuses_a_dead_slot() {
    let mut p = fresh_page(1);
    assert_eq!(p.write_record(1, &[1; 4], 4), Ok(4));
    assert_eq!(p.write_record(2, &[2; 4], 4), Ok(4));
    assert_eq!(p.delete_record(1), Ok(()));
    assert_eq!(p.trash, vec![(96, 4)]);
    assert_eq!(p.header.lower, 116);
    assert_eq!(p.header.upper, 8184);
    assert_eq!(p.write_record(3, &[3, 3], 2), Ok(2));
    assert_eq!(p.header.item_count, 2);
    assert_eq!(p.header.lower, 116);
    assert_eq!(p.header.upper, 8184);
    assert!(p.trash.is_empty());
    assert_eq!(p.read_record(3), Ok(vec![3, 3]));
    assert_eq!(p.read_record(2), Ok(vec![2; 4]));
}

#[test]
fn write_record_fills_or_refuses_a_whole_page() {
    let mut p = fresh_page(1);
    let mut q = fresh_page(1);
    assert_eq!(p.write_record(1, &[7u8; 8087], 8087), Err(DbError::SpaceOver));
    assert_eq!(p.header.item_count, 0);
    assert_eq!(p.read_record(1), Err(DbError::RecordAbsent));
    assert_eq!(q.write_record(1, &[7u8; 8086], 8086), Ok(8086));
    assert_eq!(q.header.upper, 106);
    assert_eq!(q.header.lower, 106);
    assert_eq!(q.free_space(), 0);
}

#[test]
fn fresh_header_takes_its_sequence_number() {
    let h = PageHeader::new(7, PageType::Data, 31);
    assert_eq!(h.magic, MAGIC);
    assert_eq!(h.page_id, 7);
    assert_eq!(h.lsn, 31);
    assert_eq!(h.flags, PageFlags::Clean);
    assert_eq!(h.checksum, 0);
    assert_eq!(h.item_count, 0);
    assert_eq!(h.lower, 96);
    assert_eq!(h.upper, 8192);
    assert_eq!(h.reserved, [0u8; 62]);
}

#[test]
fn deleting_a_record_frees_its_bytes() {
    let mut p = fresh_page(1);
    p.write_record(1, &[1; 6], 6).unwrap();
    p.write_record(2, &[2; 9], 9).unwrap();
    let before = p.free_space();
    let (count, lower, upper) = (p.header.item_count, p.header.lower, p.header.upper);
    let v = p.read_record(2).unwrap();
    assert_eq!(p.delete_record(2), Ok(()));
    assert_eq!(p.free_space(), before + v.len() as u32);
    assert_eq!((p.header.item_count, p.header.lower, p.header.upper), (count, lower, upper));
    assert_eq!(p.read_record(2), Err(DbError::RecordAbsent));
    assert_eq!(p.read_record(1), Ok(vec![1; 6]));
    assert_eq!(p.header.flags, PageFlags::Dirty);
    assert_eq!(p.delete_record(2), Err(DbError::RecordAbsent));
}
