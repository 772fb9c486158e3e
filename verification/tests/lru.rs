use rustdb::db_errors::DbError;
use rustdb::lru_cache::LRUCache;
use rustdb::page::{PageHeader, PageType, PAGE_SIZE};
use rustdb::slotted_page::Page;

fn page(id: u64) -> Page {
    Page::new(PageHeader::new(id, PageType::Data, 0), [0u8; PAGE_SIZE])
}

#[test]
fn cache_hits_and_misses() {
    let mut cache = LRUCache::new(2);
    assert_eq!(cache.set_new(page(1)).unwrap(), Vec::<usize>::new());
    assert_eq!(cache.set_new(page(2)).unwrap(), Vec::<usize>::new());
    assert_eq!(cache.get(1).unwrap().page.header.page_id, 1);
    assert_eq!(cache.get(2).unwrap().page.header.page_id, 2);
    assert_eq!(cache.get(3).err(), Some(DbError::RecordAbsent));
}

#[test]
fn least_recently_used_page_is_evicted() {
    let mut cache = LRUCache::new(2);
    cache.set_new(page(1)).unwrap();
    cache.set_new(page(2)).unwrap();
    // Page 1 becomes the most recently used, so page 2 goes first.
    cache.get(1).unwrap();
    let evicted = cache.set_new(page(3)).unwrap();
    assert_eq!(evicted.len(), 1);
    assert_eq!(cache.dll.nodes[evicted[0]].page.header.page_id, 2);
    assert_eq!(cache.get(2).err(), Some(DbError::RecordAbsent));
    assert_eq!(cache.get(1).unwrap().page.header.page_id, 1);
    assert_eq!(cache.get(3).unwrap().page.header.page_id, 3);
    // Now page 1 is the least recently used.
    let evicted = cache.set_new(page(4)).unwrap();
    assert_eq!(cache.dll.nodes[evicted[0]].page.header.page_id, 1);
}

#[test]
fn deleting_from_the_cache() {
    let mut cache = LRUCache::new(3);
    cache.set_new(page(1)).unwrap();
    cache.set_new(page(2)).unwrap();
    assert_eq!(cache.delete(1), Ok(()));
    assert_eq!(cache.get(1).err(), Some(DbError::RecordAbsent));
    assert_eq!(cache.delete(1), Ok(()));
    cache.set_new(page(5)).unwrap();
    cache.set_new(page(6)).unwrap();
    assert_eq!(cache.get(2).unwrap().page.header.page_id, 2);
    assert_eq!(cache.get(5).unwrap().page.header.page_id, 5);
    assert_eq!(cache.get(6).unwrap().page.header.page_id, 6);
}

#[test]
fn zero_capacity_cache_refuses_pages() {
    let mut cache = LRUCache::new(0);
    assert_eq!(cache.set_new(page(1)).err(), Some(DbError::CorruptedDataError));
}

#[test]
fn pages_change_through_get_mut() {
    let mut cache = LRUCache::new(2);
    cache.set_new(page(7)).unwrap();
    {
        let node = cache.get_mut(7).unwrap();
        let data = vec![1u8, 2, 3];
        node.page.write_record(1, &data, 3).unwrap();
    }
    let node = cache.get_mut(7).unwrap();
    assert_eq!(node.page.read_record(1).unwrap(), vec![1, 2, 3]);
    assert!(cache.get_mut(8).is_err());
}
