use db::storage::{FileHeader, Page, PageCache, PageManager, PageType, PAGE_SIZE};
use db::DbError;

#[test]
fn test_page_type_roundtrip() {
    assert_eq!(PageType::from_byte(0x00), Some(PageType::Free));
    assert_eq!(PageType::from_byte(0x01), Some(PageType::Internal));
    assert_eq!(PageType::from_byte(0x02), Some(PageType::Leaf));
    assert_eq!(PageType::from_byte(0x03), Some(PageType::Overflow));
    assert_eq!(PageType::from_byte(0xFF), None);
}

#[test]
fn test_page_cache_lru() {
    let mut cache = PageCache::new(2);

    cache.insert(Page::new(1));
    cache.insert(Page::new(2));

    // Access page 1 to make it more recent
    cache.get(1);

    // Insert page 3, should evict page 2 (least recently used)
    let evicted = cache.insert(Page::new(3));
    assert!(evicted.is_some());
    assert_eq!(evicted.unwrap().page_num, 2);

    // Page 1 should still be in cache
    assert!(cache.get(1).is_some());
    // Page 2 should be gone
    assert!(cache.get(2).is_none());
    // Page 3 should be in cache
    assert!(cache.get(3).is_some());
}

#[test]
fn page_type_byte_roundtrip_for_every_variant() {
    for pt in [PageType::Free, PageType::Internal, PageType::Leaf, PageType::Overflow] {
        assert_eq!(PageType::from_byte(pt.to_byte()), Some(pt));
    }
    for b in 4u8..=255 {
        assert_eq!(PageType::from_byte(b), None);
    }
}

#[test]
fn new_page_is_clean_zeros() {
    let p = Page::new(7);
    assert_eq!(p.page_num, 7);
    assert_eq!(p.as_bytes().len(), PAGE_SIZE);
    assert!(p.as_bytes().iter().all(|b| *b == 0));
    assert!(!p.dirty);
    assert_eq!(p.page_type(), Some(PageType::Free));
}

#[test]
fn page_type_is_first_byte() {
    let mut p = Page::new(1);
    p.set_page_type(PageType::Leaf);
    assert_eq!(p.as_bytes()[0], 0x02);
    assert_eq!(p.page_type(), Some(PageType::Leaf));
    p.write_bytes(0, &[0x09]);
    assert_eq!(p.page_type(), None);
}

#[test]
fn page_from_data_keeps_bytes() {
    let mut data = vec![0u8; PAGE_SIZE];
    data[10] = 42;
    let mut p = Page::from_data(3, data);
    assert_eq!(p.as_bytes()[10], 42);
    assert!(!p.dirty);
    p.mark_dirty();
    assert!(p.dirty);
}

#[test]
fn cache_insert_existing_page_replaces_without_eviction() {
    let mut cache = PageCache::new(1);
    assert!(cache.insert(Page::new(5)).is_none());
    let mut data = vec![0u8; PAGE_SIZE];
    data[0] = 1;
    assert!(cache.insert(Page::from_data(5, data)).is_none());
    assert_eq!(cache.len(), 1);
    assert_eq!(cache.get(5).unwrap().as_bytes()[0], 1);
}

#[test]
fn cache_never_holds_more_than_capacity() {
    let mut cache = PageCache::new(3);
    for n in 0..10u64 {
        cache.insert(Page::new(n));
        assert!(cache.len() <= 3);
    }
    // the three most recent stay
    assert!(cache.get(9).is_some());
    assert!(cache.get(8).is_some());
    assert!(cache.get(7).is_some());
    assert!(cache.get(6).is_none());
}

#[test]
fn cache_evicts_oldest_when_nothing_was_read() {
    let mut cache = PageCache::new(2);
    cache.insert(Page::new(1));
    cache.insert(Page::new(2));
    let evicted = cache.insert(Page::new(3)).unwrap();
    assert_eq!(evicted.page_num, 1);
}

#[test]
fn cache_update_marks_dirty_and_remove_forgets() {
    let mut cache = PageCache::new(4);
    cache.insert(Page::new(1));
    cache.insert(Page::new(2));
    assert!(cache.dirty_pages().is_empty());
    let mut data = vec![0u8; PAGE_SIZE];
    data[1] = 9;
    assert!(cache.update(2, data));
    assert!(!cache.update(3, vec![0u8; PAGE_SIZE]));
    let dirty = cache.dirty_pages();
    assert_eq!(dirty.len(), 1);
    assert_eq!(dirty[0].page_num, 2);
    assert_eq!(dirty[0].as_bytes()[1], 9);
    cache.clear_dirty_flags();
    assert!(cache.dirty_pages().is_empty());
    let removed = cache.remove(2).unwrap();
    assert_eq!(removed.page_num, 2);
    assert!(cache.get(2).is_none());
    assert!(cache.remove(2).is_none());
    assert_eq!(cache.len(), 1);
}

#[test]
fn page_manager_reads_back_written_page() {
    let mut pm = PageManager::new(Vec::new(), 0);
    assert_eq!(pm.allocate_page().unwrap(), 0);
    assert_eq!(pm.allocate_page().unwrap(), 1);
    assert_eq!(pm.total_pages(), 2);
    let mut data = vec![0u8; PAGE_SIZE];
    data[100] = 7;
    pm.write_page(&Page::from_data(1, data)).unwrap();
    let p = pm.read_page(1).unwrap();
    assert_eq!(p.page_num, 1);
    assert_eq!(p.as_bytes()[100], 7);
    assert_eq!(pm.read_page(0).unwrap().as_bytes()[100], 0);
    assert_eq!(pm.image().len(), 2 * PAGE_SIZE);
}

#[test]
fn page_manager_rejects_page_out_of_range() {
    let mut pm = PageManager::new(vec![0u8; PAGE_SIZE], 1);
    assert!(pm.read_page(0).is_ok());
    assert_eq!(pm.read_page(1).unwrap_err(), DbError::InvalidInput);
}

#[test]
fn page_manager_short_image_is_unexpected_eof() {
    let mut pm = PageManager::new(vec![0u8; 10], 5);
    assert_eq!(pm.read_page(0).unwrap_err(), DbError::UnexpectedEof);
}

#[test]
fn file_header_roundtrip() {
    let mut h = FileHeader::new();
    assert_eq!(h.total_pages(), 1);
    assert_eq!(h.schema_catalog_root(), 0);
    h.set_total_pages(12);
    h.set_schema_catalog_root(3);
    let bytes = h.serialize();
    assert_eq!(bytes.len(), PAGE_SIZE);
    assert_eq!(&bytes[0..4], b"BPDB");
    let back = FileHeader::deserialize(&bytes).unwrap();
    assert_eq!(back.total_pages(), 12);
    assert_eq!(back.schema_catalog_root(), 3);
}

#[test]
fn file_header_rejects_bad_magic() {
    let mut bytes = FileHeader::new().serialize();
    bytes[0] = b'X';
    assert_eq!(FileHeader::deserialize(&bytes).unwrap_err(), DbError::InvalidData);
}

#[test]
fn short_pages_with_a_wrong_tag_are_invalid_data() {
    assert_eq!(db::btree::LeafNode::deserialize(&[0x01]).unwrap_err(), DbError::InvalidData);
    assert_eq!(db::btree::InternalNode::deserialize(&[0x02, 0]).unwrap_err(), DbError::InvalidData);
    assert_eq!(FileHeader::deserialize(b"NOPE").unwrap_err(), DbError::InvalidData);
}

#[test]
fn writing_through_as_bytes_mut_marks_dirty() {
    let mut page = Page::new(4);
    assert!(!page.dirty);
    page.as_bytes_mut()[10] = 0xAB;
    assert!(page.dirty);
    assert_eq!(page.as_bytes()[10], 0xAB);
    assert_eq!(page.as_bytes().len(), PAGE_SIZE);
}

#[test]
fn cache_get_mut_changes_page_in_place_and_refreshes_it() {
    let mut cache = PageCache::new(2);
    cache.insert(Page::new(1));
    cache.insert(Page::new(2));
    assert!(cache.get_mut(9).is_none());
    cache.get_mut(1).unwrap().as_bytes_mut()[0] = 7;
    let evicted = cache.insert(Page::new(3)).unwrap();
    assert_eq!(evicted.page_num, 2);
    let page = cache.get(1).unwrap();
    assert_eq!(page.as_bytes()[0], 7);
    assert!(page.dirty);
}
