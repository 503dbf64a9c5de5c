use pagedb::content::ContentPage;
use pagedb::device::Device;
use pagedb::error::Error;
use pagedb::manage::PageManage;
use pagedb::overflow::OverflowPage;
use pagedb::page::PAGE_SIZE;
use pagedb::table::{location_from_u64, location_to_u64, Record, Table, Value, ValueType};

fn record(values: &[&[u8]]) -> Record {
    let mut rec = Record::default();
    for v in values {
        rec.values.push(Value::new(ValueType::Bytes, v));
    }
    rec
}

fn two_columns(dev: &mut Device, mgr: &mut PageManage) -> Table {
    Table::create(dev, mgr, vec![ValueType::Bytes, ValueType::Bytes]).unwrap()
}

#[test]
fn location_packing() {
    assert_eq!(location_to_u64(2, 0), 512);
    assert_eq!(location_to_u64(0x0102, 0xff), 0x0102ff);
    assert_eq!(location_from_u64(0x0102ff), (0x0102, 0xff));
    assert_eq!(location_from_u64(512), (2, 0));
    assert_eq!(location_to_u64(1 << 56, 3), 3);
}

#[test]
fn value_new_copies_the_bytes() {
    let v = Value::new(ValueType::Number, b"abc");
    assert_eq!(v.data, b"abc".to_vec());
    assert_eq!(v.value_type, ValueType::Number);
}

#[test]
fn single_tiny_record_round_trip() {
    let mut dev = Device::new();
    let mut mgr = PageManage::new(1024);
    let mut table = two_columns(&mut dev, &mut mgr);
    let rowid = table.insert(&mut dev, &mut mgr, record(&[b"test", b"test1"])).unwrap();
    assert_eq!(rowid, 0);
    let rec = table.query(&mut dev, &mut mgr, 0).unwrap();
    assert_eq!(rec.values.len(), 2);
    assert_eq!(rec.values[0].data, b"test".to_vec());
    assert_eq!(rec.values[1].data, b"test1".to_vec());
    assert_eq!(rec.rowid, 0);
}

#[test]
fn cells_are_linked_on_the_content_page() {
    let mut dev = Device::new();
    let mut mgr = PageManage::new(1024);
    let mut table = two_columns(&mut dev, &mut mgr);
    assert_eq!(table.root_node.page_count, 1);
    table.insert(&mut dev, &mut mgr, record(&[b"test", b"test1"])).unwrap();
    // the index gives the first cell: page 2, slot 0
    let head = table.root_node.find_id(&mut dev, &mut mgr, 0).unwrap();
    assert_eq!(location_from_u64(head), (2, 0));
    let page = ContentPage::load(&mgr.get_data(&mut dev, 2).unwrap());
    assert_eq!(page.entries.len(), 2);
    // the first cell: the location of the second, then the value
    assert_eq!(page.entries[0].data, [&[0u8, 0, 0, 0, 0, 0, 2, 1][..], b"test"].concat());
    assert_eq!(page.entries[1].data, b"test1".to_vec());
}

#[test]
fn bulk_insert_with_cache_churn() {
    let mut dev = Device::new();
    let mut mgr = PageManage::new(1024);
    let mut table = two_columns(&mut dev, &mut mgr);
    for i in 0..512u16 {
        let value = [b"data", &i.to_be_bytes()[..]].concat();
        let rowid = table.insert(&mut dev, &mut mgr, record(&[&value, &value])).unwrap();
        assert_eq!(rowid, i as u64);
    }
    mgr.sync_all(&mut dev).unwrap();
    let rec = table.query(&mut dev, &mut mgr, 511).unwrap();
    let expected = [b"data", &511u16.to_be_bytes()[..]].concat();
    assert_eq!(rec.values[0].data, expected);
    assert_eq!(rec.values[1].data, expected);
}

#[test]
fn bulk_insert_with_a_small_cache() {
    let mut dev = Device::new();
    let mut mgr = PageManage::new(3);
    let mut table = two_columns(&mut dev, &mut mgr);
    for i in 0..600u16 {
        let value = [b"row", &i.to_be_bytes()[..]].concat();
        table.insert(&mut dev, &mut mgr, record(&[&value, b"x"])).unwrap();
    }
    for i in [0u16, 1, 253, 254, 255, 599] {
        let rec = table.query(&mut dev, &mut mgr, i as u64).unwrap();
        assert_eq!(rec.values[0].data, [b"row", &i.to_be_bytes()[..]].concat());
        assert_eq!(rec.values[1].data, b"x".to_vec());
    }
}

#[test]
fn overflow_chain_of_a_9000_byte_value() {
    let mut dev = Device::new();
    let mut mgr = PageManage::new(1024);
    let mut table = Table::create(&mut dev, &mut mgr, vec![ValueType::Bytes]).unwrap();
    let mut seed: u32 = 12345;
    let payload: Vec<u8> = (0..9000)
        .map(|_| {
            seed = seed.wrapping_mul(1103515245).wrapping_add(12345);
            (seed >> 16) as u8
        })
        .collect();
    let rowid = table.insert(&mut dev, &mut mgr, record(&[&payload])).unwrap();
    assert_eq!(rowid, 0);
    mgr.sync_all(&mut dev).unwrap();
    // on the device: the content page, and two overflow pages behind it
    let content = dev.read_page(2).unwrap();
    assert_eq!(content[0], 3);
    assert_eq!(content[1], 1);
    assert_eq!(&content[2..4], &[0x80 | ((PAGE_SIZE - 12) >> 8) as u8, ((PAGE_SIZE - 12) & 0xff) as u8]);
    let cell = &ContentPage::load(&content).entries[0];
    assert_eq!(cell.data.len(), PAGE_SIZE - 12);
    assert_eq!(cell.overflow_page, Some(3));
    let first = OverflowPage::load(&dev.read_page(3).unwrap());
    assert_eq!(dev.read_page(3).unwrap()[0], 4);
    assert_eq!(first.data.len(), PAGE_SIZE - 11);
    assert_eq!(first.next, Some(4));
    let second = OverflowPage::load(&dev.read_page(4).unwrap());
    assert_eq!(second.next, None);
    assert_eq!(second.data.len(), 9000 - (PAGE_SIZE - 12) - (PAGE_SIZE - 11));
    assert_eq!(dev.page_count(), 5);
    let rec = table.query(&mut dev, &mut mgr, 0).unwrap();
    assert_eq!(rec.values[0].data, payload);
}

#[test]
fn persistence_across_reopen() {
    let mut dev = Device::new();
    let root;
    {
        let mut mgr = PageManage::new(1024);
        let mut table = two_columns(&mut dev, &mut mgr);
        root = table.root_node.page_count;
        table.insert(&mut dev, &mut mgr, record(&[b"test", b"test1"])).unwrap();
        mgr.sync_all(&mut dev).unwrap();
    }
    let mut dev = Device::from_bytes(&dev.to_bytes());
    let mut mgr = PageManage::new(4);
    let table = Table::open(&mut dev, &mut mgr, root, vec![ValueType::Bytes, ValueType::Bytes]).unwrap();
    let rec = table.query(&mut dev, &mut mgr, 0).unwrap();
    assert_eq!(rec.values[0].data, b"test".to_vec());
    assert_eq!(rec.values[1].data, b"test1".to_vec());
}

#[test]
fn open_without_a_root_page_is_not_found() {
    let mut dev = Device::new();
    let mut mgr = PageManage::new(4);
    assert!(matches!(Table::open(&mut dev, &mut mgr, 1, vec![ValueType::Bytes]), Err(Error::NotFound)));
}

#[test]
fn query_of_a_missing_row() {
    let mut dev = Device::new();
    let mut mgr = PageManage::new(16);
    let mut table = two_columns(&mut dev, &mut mgr);
    assert!(matches!(table.query(&mut dev, &mut mgr, 0), Err(Error::MissingRow)));
    table.insert(&mut dev, &mut mgr, record(&[b"a", b"b"])).unwrap();
    assert!(matches!(table.query(&mut dev, &mut mgr, 1), Err(Error::MissingRow)));
}

#[test]
fn record_of_the_wrong_arity_is_refused() {
    let mut dev = Device::new();
    let mut mgr = PageManage::new(16);
    let mut table = two_columns(&mut dev, &mut mgr);
    assert_eq!(table.insert(&mut dev, &mut mgr, record(&[b"a"])), Err(Error::Arity));
    assert_eq!(table.insert(&mut dev, &mut mgr, record(&[])), Err(Error::Arity));
    assert_eq!(table.insert(&mut dev, &mut mgr, record(&[b"a", b"b", b"c"])), Err(Error::Arity));
    assert_eq!(table.insert(&mut dev, &mut mgr, record(&[b"a", b"b"])), Ok(0));
}

#[test]
fn long_value_before_the_last_is_refused() {
    let mut dev = Device::new();
    let mut mgr = PageManage::new(16);
    let mut table = two_columns(&mut dev, &mut mgr);
    let long = vec![7u8; PAGE_SIZE - 11];
    assert_eq!(table.insert(&mut dev, &mut mgr, record(&[&long, b"b"])), Err(Error::TooLarge));
    let fits = vec![7u8; PAGE_SIZE - 12];
    assert_eq!(table.insert(&mut dev, &mut mgr, record(&[&fits, &long])), Ok(0));
    let rec = table.query(&mut dev, &mut mgr, 0).unwrap();
    assert_eq!(rec.values[0].data, fits);
    assert_eq!(rec.values[1].data, long);
}

#[test]
fn records_with_long_last_values() {
    let mut dev = Device::new();
    let mut mgr = PageManage::new(5);
    let mut table = two_columns(&mut dev, &mut mgr);
    let mut expected = Vec::new();
    for i in 0..20usize {
        let first = vec![i as u8; i * 200];
        let second: Vec<u8> = (0..i * 1500).map(|j| (i + j) as u8).collect();
        assert_eq!(table.insert(&mut dev, &mut mgr, record(&[&first, &second])), Ok(i as u64));
        expected.push((first, second));
    }
    for (i, (first, second)) in expected.iter().enumerate() {
        let rec = table.query(&mut dev, &mut mgr, i as u64).unwrap();
        assert_eq!(&rec.values[0].data, first);
        assert_eq!(&rec.values[1].data, second);
    }
}

#[test]
fn insert_fails_on_a_full_device() {
    let mut dev = Device::with_limit(4);
    let mut mgr = PageManage::new(16);
    let mut table = Table::create(&mut dev, &mut mgr, vec![ValueType::Bytes]).unwrap();
    let big = vec![1u8; 30000];
    assert_eq!(table.insert(&mut dev, &mut mgr, record(&[&big])), Err(Error::Io));
}

#[test]
fn create_on_a_fresh_device_takes_the_first_free_page() {
    let mut dev = Device::with_limit(2);
    let mut mgr = PageManage::new(4);
    let table = Table::create(&mut dev, &mut mgr, vec![ValueType::Bytes]).unwrap();
    assert_eq!(table.root_node.page_count, 1);
    // and fails where none is free
    let mut dev = Device::with_limit(1);
    let mut mgr = PageManage::new(4);
    assert!(matches!(Table::create(&mut dev, &mut mgr, vec![ValueType::Bytes]), Err(Error::Io)));
}

#[test]
fn failed_insert_keeps_the_rows_that_were_stored() {
    // pages 1 to 5: the root, one content page, and three more
    let mut dev = Device::with_limit(6);
    let mut mgr = PageManage::new(16);
    let mut table = two_columns(&mut dev, &mut mgr);
    let mut stored: Vec<(u64, Vec<u8>)> = Vec::new();
    let mut failed = false;
    for round in 0..40u8 {
        let last = vec![round; 900];
        match table.insert(&mut dev, &mut mgr, record(&[&[round, round], &last])) {
            Ok(rowid) => stored.push((rowid, last)),
            Err(e) => {
                assert_eq!(e, Error::Io);
                failed = true;
                break;
            },
        }
    }
    assert!(failed);
    assert!(stored.len() >= 4);
    for (i, (rowid, last)) in stored.iter().enumerate() {
        assert_eq!(*rowid, i as u64);
        let rec = table.query(&mut dev, &mut mgr, *rowid).unwrap();
        assert_eq!(rec.values[0].data, vec![i as u8, i as u8]);
        assert_eq!(&rec.values[1].data, last);
    }
}

#[test]
fn cells_of_a_long_last_value() {
    let mut dev = Device::new();
    let mut mgr = PageManage::new(64);
    let mut table = two_columns(&mut dev, &mut mgr);
    let long = vec![7u8; 5000];
    let rowid = table.insert(&mut dev, &mut mgr, record(&[b"key", &long])).unwrap();
    let (page, slot) = location_from_u64(table.root_node.find_id(&mut dev, &mut mgr, rowid).unwrap());
    let cells = ContentPage::load(&mgr.get_data(&mut dev, page).unwrap());
    // the first cell: the location of the second, then the value, inline
    let first = &cells.entries[slot as usize];
    assert_eq!(first.overflow_page, None);
    assert_eq!(first.data.len(), 8 + 3);
    assert_eq!(&first.data[8..], b"key");
    let mut link = [0u8; 8];
    link.copy_from_slice(&first.data[..8]);
    let (next_page, next_slot) = location_from_u64(u64::from_be_bytes(link));
    // the last cell: the first 4084 bytes inline, the rest in a chain
    let cells = ContentPage::load(&mgr.get_data(&mut dev, next_page).unwrap());
    let last = &cells.entries[next_slot as usize];
    assert_eq!(last.data.len(), PAGE_SIZE - 12);
    assert_eq!(last.data, long[..PAGE_SIZE - 12]);
    let link = OverflowPage::load(&mgr.get_data(&mut dev, last.overflow_page.unwrap()).unwrap());
    assert_eq!(link.next, None);
    assert_eq!(link.data, long[PAGE_SIZE - 12..]);
}

#[test]
fn insert_succeeds_with_the_pages_that_the_record_may_take() {
    // after the root: one page for each of two values, one more, two links
    let mut dev = Device::with_limit(2 + 2 + 1 + 2);
    let mut mgr = PageManage::new(16);
    let mut table = two_columns(&mut dev, &mut mgr);
    let long = vec![9u8; (PAGE_SIZE - 12) + (PAGE_SIZE - 11) + 1];
    let rowid = table.insert(&mut dev, &mut mgr, record(&[b"k", &long])).unwrap();
    assert_eq!(rowid, 0);
    assert!(table.root_node.is_leaf());
    assert_eq!(table.root_node.len(), 1);
    let rec = table.query(&mut dev, &mut mgr, 0).unwrap();
    assert_eq!(rec.values[0].data, b"k");
    assert_eq!(rec.values[1].data, long);
}
