use pagedb::chain::{INLINE_MAX, INLINE_PREFIX};
use pagedb::content::{ContentEntry, ContentPage};
use pagedb::device::Device;
use pagedb::error::Error;
use pagedb::manage::PageManage;
use pagedb::overflow::OverflowPage;
use pagedb::page::{PageType, PAGE_SIZE};

fn bytes(len: usize) -> Vec<u8> {
    (0..len).map(|i| (i * 7 + 3) as u8).collect()
}

#[test]
fn entry_sizes() {
    let plain = ContentEntry { data: vec![1, 2, 3], overflow_page: None };
    let chained = ContentEntry { data: vec![1, 2, 3], overflow_page: Some(9) };
    assert_eq!(plain.total_size(), 5);
    assert_eq!(chained.total_size(), 13);
    assert_eq!(ContentEntry::precalculate_size(3, false), 5);
    assert_eq!(ContentEntry::precalculate_size(3, true), 13);
}

#[test]
fn content_page_layout_and_round_trip() {
    let mut page = ContentPage::default();
    page.push(ContentEntry { data: vec![0xaa, 0xbb], overflow_page: None }).unwrap();
    page.push(ContentEntry { data: vec![0xcc], overflow_page: Some(0x0102) }).unwrap();
    assert_eq!(page.total_size(), 2 + 4 + 11);
    let image = page.dump();
    assert_eq!(&image[..17], &[3, 2, 0, 2, 0xaa, 0xbb, 0x80, 1, 0, 0, 0, 0, 0, 0, 1, 2, 0xcc]);
    assert!(image[17..].iter().all(|b| *b == 0));
    let back = ContentPage::load(&image);
    assert_eq!(back.entries.len(), 2);
    assert_eq!(back.entries[0].data, vec![0xaa, 0xbb]);
    assert_eq!(back.entries[0].overflow_page, None);
    assert_eq!(back.entries[1].data, vec![0xcc]);
    assert_eq!(back.entries[1].overflow_page, Some(0x0102));
}

#[test]
fn content_page_full_to_the_last_byte_takes_no_more() {
    let mut page = ContentPage::default();
    // one entry of 4092 bytes: with its header and the page header, 4096
    assert!(page.push(ContentEntry { data: bytes(PAGE_SIZE - 4), overflow_page: None }).is_ok());
    assert_eq!(page.total_size(), PAGE_SIZE);
    assert!(page.push(ContentEntry { data: vec![], overflow_page: None }).is_err());
    assert_eq!(page.entries.len(), 1);
    let back = ContentPage::load(&page.dump());
    assert_eq!(back.entries[0].data, bytes(PAGE_SIZE - 4));
}

#[test]
fn content_page_takes_at_most_255_entries() {
    let mut page = ContentPage::default();
    for _ in 0..255 {
        assert!(page.push(ContentEntry { data: vec![], overflow_page: None }).is_ok());
    }
    assert!(page.push(ContentEntry { data: vec![], overflow_page: None }).is_err());
    assert_eq!(ContentPage::load(&page.dump()).entries.len(), 255);
}

#[test]
fn content_page_load_stops_at_an_entry_that_runs_past_the_end() {
    let mut image = [0u8; PAGE_SIZE];
    image[0] = 3;
    image[1] = 2;
    image[2] = 0;
    image[3] = 1;
    image[4] = 0x55;
    image[5] = 0x7f;
    image[6] = 0xff;
    let page = ContentPage::load(&image);
    assert_eq!(page.entries.len(), 1);
    assert_eq!(page.entries[0].data, vec![0x55]);
}

#[test]
fn overflow_page_layout_and_round_trip() {
    let tail = OverflowPage { data: vec![9, 8, 7], next: None };
    let image = tail.dump();
    assert_eq!(&image[..6], &[4, 0, 3, 9, 8, 7]);
    let back = OverflowPage::load(&image);
    assert_eq!(back.data, vec![9, 8, 7]);
    assert_eq!(back.next, None);

    let link = OverflowPage { data: vec![1, 2], next: Some(0x0a0b) };
    let image = link.dump();
    assert_eq!(&image[..13], &[4, 0x80, 2, 0, 0, 0, 0, 0, 0, 0x0a, 0x0b, 1, 2]);
    let back = OverflowPage::load(&image);
    assert_eq!(back.data, vec![1, 2]);
    assert_eq!(back.next, Some(0x0a0b));
}

#[test]
fn overflow_page_put_data_takes_what_a_link_holds() {
    let mut page = OverflowPage::default();
    page.put_data(&bytes(PAGE_SIZE - 3));
    assert_eq!(page.data.len(), PAGE_SIZE - 3);
    page.put_data(&bytes(PAGE_SIZE - 2));
    assert_eq!(page.data, bytes(PAGE_SIZE - 11));
}

#[test]
fn value_of_4091_bytes_stays_inline() {
    let mut dev = Device::new();
    let mut mgr = PageManage::new(8);
    let data = bytes(PAGE_SIZE - 5);
    assert_eq!(data.len(), INLINE_MAX);
    let entry = ContentEntry::from_bytes(&mut dev, &mut mgr, &data).unwrap();
    assert_eq!(entry.overflow_page, None);
    assert_eq!(entry.data, data);
    assert!(mgr.get(&mut dev, 0).is_err());
}

#[test]
fn value_of_4092_bytes_overflows_into_one_tail_page() {
    let mut dev = Device::new();
    let mut mgr = PageManage::new(8);
    let data = bytes(PAGE_SIZE - 4);
    let entry = ContentEntry::from_bytes(&mut dev, &mut mgr, &data).unwrap();
    assert_eq!(entry.data.len(), INLINE_PREFIX);
    assert_eq!(entry.data[..], data[..PAGE_SIZE - 12]);
    assert_eq!(entry.overflow_page, Some(1));
    let link = OverflowPage::load(&mgr.get_data(&mut dev, 1).unwrap());
    assert_eq!(link.next, None);
    assert_eq!(link.data[..], data[PAGE_SIZE - 12..]);
    assert!(mgr.get(&mut dev, 2).is_err());
    assert_eq!(entry.read(&mut dev, &mut mgr), data);
}

#[test]
fn longest_value_with_a_single_tail_page() {
    let mut dev = Device::new();
    let mut mgr = PageManage::new(8);
    let data = bytes((PAGE_SIZE - 12) + (PAGE_SIZE - 3));
    let entry = ContentEntry::from_bytes(&mut dev, &mut mgr, &data).unwrap();
    let link = OverflowPage::load(&mgr.get_data(&mut dev, entry.overflow_page.unwrap()).unwrap());
    assert_eq!(link.next, None);
    assert_eq!(link.data.len(), PAGE_SIZE - 3);
    assert_eq!(entry.read(&mut dev, &mut mgr), data);

    let longer = bytes((PAGE_SIZE - 12) + (PAGE_SIZE - 3) + 1);
    let entry = ContentEntry::from_bytes(&mut dev, &mut mgr, &longer).unwrap();
    let first = OverflowPage::load(&mgr.get_data(&mut dev, entry.overflow_page.unwrap()).unwrap());
    assert_eq!(first.data.len(), PAGE_SIZE - 11);
    let second = OverflowPage::load(&mgr.get_data(&mut dev, first.next.unwrap()).unwrap());
    assert_eq!(second.next, None);
    assert_eq!(second.data.len(), 9);
    assert_eq!(entry.read(&mut dev, &mut mgr), longer);
}

#[test]
fn from_bytes_fails_without_free_pages() {
    let mut dev = Device::with_limit(2);
    let mut mgr = PageManage::new(8);
    let data = bytes(20000);
    assert!(ContentEntry::from_bytes(&mut dev, &mut mgr, &data).is_err());
}

#[test]
fn from_bytes_takes_only_the_pages_of_its_chain() {
    let mut dev = Device::new();
    let mut mgr = PageManage::new(8);
    let data = bytes(9000);
    let entry = ContentEntry::from_bytes(&mut dev, &mut mgr, &data).unwrap();
    assert_eq!(entry.overflow_page, Some(1));
    let first = OverflowPage::load(&mgr.get_data(&mut dev, 1).unwrap());
    assert_eq!(first.next, Some(2));
    let second = OverflowPage::load(&mgr.get_data(&mut dev, 2).unwrap());
    assert_eq!(second.next, None);
    // the bitmap's own bit and those of the two links
    let bitmap = mgr.get_data(&mut dev, 0).unwrap();
    assert_eq!(bitmap[0], 0b1110_0000);
    assert!(bitmap[1..].iter().all(|byte| *byte == 0));
    assert_eq!(mgr.allocate(&mut dev, PageType::General).unwrap().count, 3);
}

#[test]
fn from_bytes_fails_exactly_where_the_chain_has_no_room() {
    // pages 1 and 2 are free: room for two links, not for three
    let two_links = bytes((PAGE_SIZE - 12) + (PAGE_SIZE - 11) + (PAGE_SIZE - 3));
    let three_links = bytes((PAGE_SIZE - 12) + (PAGE_SIZE - 11) + (PAGE_SIZE - 3) + 1);
    let mut dev = Device::with_limit(3);
    let mut mgr = PageManage::new(8);
    assert_eq!(ContentEntry::from_bytes(&mut dev, &mut mgr, &three_links).err(), Some(Error::Io));
    let mut dev = Device::with_limit(3);
    let mut mgr = PageManage::new(8);
    let entry = ContentEntry::from_bytes(&mut dev, &mut mgr, &two_links).unwrap();
    assert_eq!(entry.read(&mut dev, &mut mgr), two_links);
    // an inline value asks for no page
    let mut dev = Device::with_limit(0);
    let mut mgr = PageManage::new(8);
    let small = bytes(PAGE_SIZE - 5);
    let entry = ContentEntry::from_bytes(&mut dev, &mut mgr, &small).unwrap();
    assert_eq!(entry.overflow_page, None);
    assert_eq!(entry.data, small);
}
