use pagedb::bitmap::{BitmapPage, BITMAP_MANAGED_SIZE};
use pagedb::device::Device;
use pagedb::error::Error;
use pagedb::manage::PageManage;
use pagedb::page::{Page, PageType, PAGE_SIZE};

#[test]
fn page_new_is_blank_and_dirty() {
    let page = Page::new(7, PageType::ContentPage);
    assert_eq!(page.count, 7);
    assert!(!page.syncd);
    assert!(page.data.iter().all(|b| *b == 0));
}

#[test]
fn page_modify_marks_dirty() {
    let mut dev = Device::new();
    let mut page = Page::new(0, PageType::General);
    page.sync(&mut dev).unwrap();
    assert!(page.syncd);
    let mut data = [0u8; PAGE_SIZE];
    data[5] = 9;
    page.modify(&data);
    assert!(!page.syncd);
    assert_eq!(page.data[5], 9);
}

#[test]
fn page_sync_writes_once() {
    let mut dev = Device::new();
    let mut page = Page::new(2, PageType::General);
    page.data[0] = 42;
    page.sync(&mut dev).unwrap();
    assert_eq!(dev.page_count(), 3);
    assert_eq!(dev.read_page(2).unwrap()[0], 42);
    assert!(dev.read_page(1).unwrap().iter().all(|b| *b == 0));
    let loaded = Page::load(&dev, 2).unwrap();
    assert!(loaded.syncd);
    assert_eq!(loaded.data[0], 42);
}

#[test]
fn page_load_beyond_end_is_not_found() {
    let dev = Device::new();
    assert!(matches!(Page::load(&dev, 0), Err(Error::NotFound)));
}

#[test]
fn device_write_at_limit_fails() {
    let mut dev = Device::with_limit(2);
    let data = [1u8; PAGE_SIZE];
    assert_eq!(dev.write_page(1, &data), Ok(()));
    assert_eq!(dev.write_page(2, &data), Err(Error::Io));
    assert_eq!(dev.page_count(), 2);
    assert_eq!(dev.page_limit(), 2);
}

#[test]
fn device_bytes_round_trip() {
    let mut bytes = vec![0u8; PAGE_SIZE * 2 + 10];
    bytes[PAGE_SIZE] = 5;
    let dev = Device::from_bytes(&bytes);
    assert_eq!(dev.page_count(), 2);
    assert_eq!(dev.read_page(1).unwrap()[0], 5);
    let back = dev.to_bytes();
    assert_eq!(back.len(), PAGE_SIZE * 2);
    assert_eq!(&back[..], &bytes[..PAGE_SIZE * 2]);
}

#[test]
fn bitmap_bits_are_most_significant_first() {
    let mut bitmap = BitmapPage::new(0);
    assert_eq!(bitmap.find_unused(), Some(0));
    bitmap.set_used(0);
    assert_eq!(bitmap.page.data[0], 0x80);
    bitmap.set_used(9);
    assert_eq!(bitmap.page.data[1], 0x40);
    assert!(bitmap.get_used(0));
    assert!(bitmap.get_used(9));
    assert!(!bitmap.get_used(1));
    assert_eq!(bitmap.find_unused(), Some(1));
    bitmap.set_unused(9);
    assert!(!bitmap.get_used(9));
    assert_eq!(bitmap.page.data[1], 0);
}

#[test]
fn bitmap_full_has_no_unused() {
    let mut bitmap = BitmapPage::new(0);
    bitmap.page.data = [255u8; PAGE_SIZE];
    assert_eq!(bitmap.find_unused(), None);
    bitmap.set_unused((BITMAP_MANAGED_SIZE - 1) as u64);
    assert_eq!(bitmap.find_unused(), Some((BITMAP_MANAGED_SIZE - 1) as u64));
}

#[test]
fn allocate_hands_out_lowest_free_page() {
    let mut dev = Device::new();
    let mut mgr = PageManage::new(8);
    let a = mgr.allocate(&mut dev, PageType::BtreePage).unwrap();
    let b = mgr.allocate(&mut dev, PageType::General).unwrap();
    assert_eq!(a.count, 1);
    assert_eq!(b.count, 2);
    let bitmap = mgr.get_data(&mut dev, 0).unwrap();
    assert_eq!(bitmap[0], 0b1110_0000);
}

#[test]
fn release_clears_bit_and_page_is_reused() {
    let mut dev = Device::new();
    let mut mgr = PageManage::new(8);
    for _ in 0..3 {
        mgr.allocate(&mut dev, PageType::General).unwrap();
    }
    assert_eq!(mgr.release(&mut dev, 2), Ok(()));
    let bitmap = mgr.get_data(&mut dev, 0).unwrap();
    assert_eq!(bitmap[0], 0b1101_0000);
    let again = mgr.allocate(&mut dev, PageType::General).unwrap();
    assert_eq!(again.count, 2);
}

#[test]
fn release_of_reserved_or_unknown_page() {
    let mut dev = Device::new();
    let mut mgr = PageManage::new(8);
    assert_eq!(mgr.release(&mut dev, 0), Err(Error::Reserved));
    assert_eq!(mgr.release(&mut dev, 32769), Err(Error::Reserved));
    assert_eq!(mgr.release(&mut dev, 32768), Err(Error::Reserved));
    assert_eq!(mgr.release(&mut dev, 5), Err(Error::NotFound));
}

#[test]
fn get_of_unwritten_page_is_not_found() {
    let mut dev = Device::new();
    let mut mgr = PageManage::new(8);
    assert!(matches!(mgr.get(&mut dev, 3), Err(Error::NotFound)));
    assert!(matches!(mgr.get_data(&mut dev, 3), Err(Error::NotFound)));
    let data = [0u8; PAGE_SIZE];
    assert_eq!(mgr.modify(&mut dev, 3, &data), Err(Error::NotFound));
}

#[test]
fn cache_evicts_oldest_and_writes_back() {
    let mut dev = Device::new();
    let mut mgr = PageManage::new(2);
    mgr.alloc_with_count(&mut dev, 0, PageType::General).unwrap();
    let mut data = [0u8; PAGE_SIZE];
    data[0] = 11;
    mgr.modify(&mut dev, 0, &data).unwrap();
    mgr.alloc_with_count(&mut dev, 1, PageType::General).unwrap();
    assert_eq!(dev.page_count(), 0);
    mgr.alloc_with_count(&mut dev, 2, PageType::General).unwrap();
    // page 0 was the oldest: it is on the device now, with its bytes
    assert_eq!(dev.page_count(), 1);
    assert_eq!(dev.read_page(0).unwrap()[0], 11);
    // and it is found again through the cache
    assert_eq!(mgr.get_data(&mut dev, 0).unwrap()[0], 11);
}

#[test]
fn sync_all_puts_every_page_on_the_device() {
    let mut dev = Device::new();
    let mut mgr = PageManage::new(8);
    let page = mgr.allocate(&mut dev, PageType::General).unwrap();
    let mut data = [0u8; PAGE_SIZE];
    data[100] = 7;
    mgr.modify(&mut dev, page.count, &data).unwrap();
    assert_eq!(dev.page_count(), 0);
    assert_eq!(mgr.sync_all(&mut dev), Ok(()));
    assert_eq!(dev.page_count(), 2);
    assert_eq!(dev.read_page(1).unwrap()[100], 7);
    assert_eq!(dev.read_page(0).unwrap()[0], 0b1100_0000);
}

#[test]
fn alloc_with_count_beyond_limit_fails() {
    let mut dev = Device::with_limit(4);
    let mut mgr = PageManage::new(8);
    assert!(matches!(mgr.alloc_with_count(&mut dev, 4, PageType::General), Err(Error::Io)));
    assert!(mgr.alloc_with_count(&mut dev, 3, PageType::General).is_ok());
}

#[test]
fn allocate_fails_when_device_is_full() {
    let mut dev = Device::with_limit(3);
    let mut mgr = PageManage::new(8);
    assert_eq!(mgr.allocate(&mut dev, PageType::General).unwrap().count, 1);
    assert_eq!(mgr.allocate(&mut dev, PageType::General).unwrap().count, 2);
    assert!(matches!(mgr.allocate(&mut dev, PageType::General), Err(Error::Io)));
}

#[test]
fn find_page_by_type_allocates_and_finds() {
    let mut dev = Device::new();
    let mut mgr = PageManage::new(8);
    let root = mgr.allocate(&mut dev, PageType::BtreePage).unwrap();
    assert_eq!(root.count, 1);
    let found = mgr.find_page_by_type(&mut dev, 0, 3).unwrap();
    assert_eq!(found, 2);
    assert_eq!(mgr.get_data(&mut dev, 2).unwrap()[0], 3);
    assert_eq!(mgr.get_data(&mut dev, 0).unwrap()[0], 0b1110_0000);
    // the page is found again, and the search goes on behind it
    assert_eq!(mgr.find_page_by_type(&mut dev, 0, 3).unwrap(), 2);
    assert_eq!(mgr.find_page_by_type(&mut dev, 3, 3).unwrap(), 3);
}

#[test]
fn default_manager_still_caches_one_page() {
    let mut dev = Device::new();
    let mut mgr = PageManage::default();
    assert_eq!(mgr.cache_size, 0);
    let a = mgr.allocate(&mut dev, PageType::General).unwrap();
    let b = mgr.allocate(&mut dev, PageType::General).unwrap();
    assert_eq!((a.count, b.count), (1, 2));
    assert_eq!(mgr.get_data(&mut dev, 0).unwrap()[0], 0b1110_0000);
}
