use pagedb::btree::{BtreeNode, MAX_IDS};
use pagedb::device::Device;
use pagedb::error::Error;
use pagedb::manage::PageManage;
use pagedb::page::{PageType, PAGE_TYPEID_BTREE_INTERNAL, PAGE_TYPEID_BTREE_LEAF};

fn new_tree(dev: &mut Device, mgr: &mut PageManage) -> BtreeNode {
    let page = mgr.allocate(dev, PageType::BtreePage).unwrap();
    let mut root = BtreeNode::new_node(PAGE_TYPEID_BTREE_LEAF);
    root.page_count = page.count;
    mgr.modify(dev, page.count, &root.dump()).unwrap();
    root
}

#[test]
fn node_layout_and_round_trip() {
    let mut node = BtreeNode::new_node(PAGE_TYPEID_BTREE_LEAF);
    node.push(1, 0x0102030405060708);
    node.push(0x0a0b, 2);
    let image = node.dump();
    assert_eq!(image[0], 2);
    assert_eq!(image[1], 2);
    assert!(image[2..16].iter().all(|b| *b == 0));
    assert_eq!(&image[16..32], &[0, 0, 0, 0, 0, 0, 0, 1, 1, 2, 3, 4, 5, 6, 7, 8]);
    assert_eq!(&image[32..48], &[0, 0, 0, 0, 0, 0, 0x0a, 0x0b, 0, 0, 0, 0, 0, 0, 0, 2]);
    let back = BtreeNode::new(77, &image);
    assert_eq!(back.page_count, 77);
    assert_eq!(back.node_type, PAGE_TYPEID_BTREE_LEAF);
    assert_eq!(back.ids, vec![1, 0x0a0b]);
    assert_eq!(back.ptrs, vec![0x0102030405060708, 2]);
    assert_eq!(BtreeNode::load(&image).page_count, 0);
}

#[test]
fn node_entry_operations() {
    let mut node = BtreeNode::default();
    assert!(node.is_empty());
    assert!(!node.is_leaf());
    assert!(!node.is_internal());
    node.push(10, 1);
    node.push(30, 3);
    node.insert(1, 20, 2);
    assert_eq!(node.ids, vec![10, 20, 30]);
    assert_eq!(node.add(25, 9), 2);
    assert_eq!(node.add(5, 8), 0);
    assert_eq!(node.add(40, 7), 5);
    assert_eq!(node.ids, vec![5, 10, 20, 25, 30, 40]);
    assert_eq!(node.ptrs, vec![8, 1, 2, 9, 3, 7]);
    node.remove(0);
    assert_eq!(node.len(), 5);
    node.clear();
    assert_eq!(node.len(), 0);
}

#[test]
fn insert_and_find() {
    let mut dev = Device::new();
    let mut mgr = PageManage::new(16);
    let mut root = new_tree(&mut dev, &mut mgr);
    for key in [5u64, 1, 9, 3, 7] {
        assert_eq!(root.insert_id(&mut dev, &mut mgr, key, key * 100), Ok(()));
    }
    assert_eq!(root.ids, vec![1, 3, 5, 7, 9]);
    for key in [1u64, 3, 5, 7, 9] {
        assert_eq!(root.find_id(&mut dev, &mut mgr, key), Some(key * 100));
    }
    assert_eq!(root.find_id(&mut dev, &mut mgr, 4), None);
    assert_eq!(root.find_id(&mut dev, &mut mgr, 0), None);
    // the root page holds the root
    let stored = BtreeNode::new(root.page_count, &mgr.get_data(&mut dev, root.page_count).unwrap());
    assert_eq!(stored.ids, root.ids);
}

#[test]
fn duplicate_key_is_refused() {
    let mut dev = Device::new();
    let mut mgr = PageManage::new(16);
    let mut root = new_tree(&mut dev, &mut mgr);
    root.insert_id(&mut dev, &mut mgr, 4, 1).unwrap();
    assert_eq!(root.insert_id(&mut dev, &mut mgr, 4, 2), Err(Error::DuplicateKey));
    assert_eq!(root.find_id(&mut dev, &mut mgr, 4), Some(1));
}

#[test]
fn root_splits_at_254_into_two_leaves_of_127() {
    let mut dev = Device::new();
    let mut mgr = PageManage::new(16);
    let mut root = new_tree(&mut dev, &mut mgr);
    let root_page = root.page_count;
    for key in 0..253u64 {
        root.insert_id(&mut dev, &mut mgr, key, key % 251).unwrap();
    }
    assert!(root.is_leaf());
    assert_eq!(root.len(), 253);
    root.insert_id(&mut dev, &mut mgr, 253, 1).unwrap();
    assert!(root.is_internal());
    assert_eq!(root.page_count, root_page);
    assert_eq!(root.len(), 2);
    assert_eq!(root.ids, vec![0, 127]);
    let left = BtreeNode::new(root.ptrs[0], &mgr.get_data(&mut dev, root.ptrs[0]).unwrap());
    let right = BtreeNode::new(root.ptrs[1], &mgr.get_data(&mut dev, root.ptrs[1]).unwrap());
    assert!(left.is_leaf() && right.is_leaf());
    assert_eq!(left.len(), 127);
    assert_eq!(right.len(), 127);
    assert_eq!(left.ids[0], 0);
    assert_eq!(right.ids[0], 127);
    let stored = BtreeNode::new(root_page, &mgr.get_data(&mut dev, root_page).unwrap());
    assert_eq!(stored.node_type, PAGE_TYPEID_BTREE_INTERNAL);
    for key in 0..254u64 {
        assert_eq!(root.find_id(&mut dev, &mut mgr, key), Some(if key == 253 { 1 } else { key % 251 }));
    }
    assert_eq!(MAX_IDS, 254);
}

#[test]
fn find_unused_fills_gaps_first() {
    let mut dev = Device::new();
    let mut mgr = PageManage::new(16);
    let mut root = new_tree(&mut dev, &mut mgr);
    assert_eq!(root.find_unused(&mut dev, &mut mgr), Some(0));
    for key in [0u64, 1, 2, 4, 5] {
        root.insert_id(&mut dev, &mut mgr, key, 0).unwrap();
    }
    assert_eq!(root.find_unused(&mut dev, &mut mgr), Some(3));
    root.insert_id(&mut dev, &mut mgr, 3, 0).unwrap();
    assert_eq!(root.find_unused(&mut dev, &mut mgr), Some(6));
}

#[test]
fn find_unused_below_the_first_key() {
    let mut dev = Device::new();
    let mut mgr = PageManage::new(16);
    let mut root = new_tree(&mut dev, &mut mgr);
    root.insert_id(&mut dev, &mut mgr, 5, 0).unwrap();
    root.insert_id(&mut dev, &mut mgr, 6, 0).unwrap();
    assert_eq!(root.find_unused(&mut dev, &mut mgr), Some(0));
}

#[test]
fn find_unused_across_leaves() {
    let mut dev = Device::new();
    let mut mgr = PageManage::new(16);
    let mut root = new_tree(&mut dev, &mut mgr);
    for key in 0..600u64 {
        root.insert_id(&mut dev, &mut mgr, key, key).unwrap();
    }
    assert!(root.is_internal());
    assert_eq!(root.find_unused(&mut dev, &mut mgr), Some(600));
    root.remove_id(&mut dev, &mut mgr, 300);
    assert_eq!(root.find_unused(&mut dev, &mut mgr), Some(300));
    root.remove_id(&mut dev, &mut mgr, 0);
    assert_eq!(root.find_unused(&mut dev, &mut mgr), Some(0));
}

#[test]
fn many_keys_in_mixed_order() {
    let mut dev = Device::new();
    let mut mgr = PageManage::new(8);
    let mut root = new_tree(&mut dev, &mut mgr);
    let mut key: u64 = 1;
    let mut keys = Vec::new();
    for _ in 0..3000 {
        key = key.wrapping_mul(6364136223846793005).wrapping_add(1442695040888963407);
        let k = key >> 40;
        if root.insert_id(&mut dev, &mut mgr, k, !k).is_ok() {
            keys.push(k);
        }
    }
    assert!(keys.len() > 2900);
    for k in &keys {
        assert_eq!(root.find_id(&mut dev, &mut mgr, *k), Some(!*k));
    }
    for (n, k) in keys.iter().enumerate() {
        if n % 3 != 0 {
            root.remove_id(&mut dev, &mut mgr, *k);
        }
    }
    for (n, k) in keys.iter().enumerate() {
        let expected = if n % 3 == 0 { Some(!*k) } else { None };
        assert_eq!(root.find_id(&mut dev, &mut mgr, *k), expected);
    }
}

#[test]
fn remove_merges_short_leaf_and_releases_its_page() {
    let mut dev = Device::new();
    let mut mgr = PageManage::new(16);
    let mut root = new_tree(&mut dev, &mut mgr);
    for key in 0..254u64 {
        root.insert_id(&mut dev, &mut mgr, key, key).unwrap();
    }
    assert_eq!(root.len(), 2);
    let left_page = root.ptrs[0];
    let right_page = root.ptrs[1];
    // the right leaf falls to 126 entries: with the 127 of the left it fits one node
    root.remove_id(&mut dev, &mut mgr, 200);
    assert_eq!(root.len(), 1);
    assert_eq!(root.ptrs, vec![left_page]);
    let merged = BtreeNode::new(left_page, &mgr.get_data(&mut dev, left_page).unwrap());
    assert_eq!(merged.len(), 253);
    // the right leaf's page is free again
    let bitmap = mgr.get_data(&mut dev, 0).unwrap();
    let bit = bitmap[(right_page / 8) as usize] & (0x80 >> (right_page % 8));
    assert_eq!(bit, 0);
    assert_eq!(mgr.allocate(&mut dev, PageType::General).unwrap().count, right_page);
    assert_eq!(root.find_id(&mut dev, &mut mgr, 200), None);
    assert_eq!(root.find_id(&mut dev, &mut mgr, 253), Some(253));
}

#[test]
fn remove_borrows_from_a_full_sibling() {
    let mut dev = Device::new();
    let mut mgr = PageManage::new(16);
    let mut root = new_tree(&mut dev, &mut mgr);
    for key in 0..254u64 {
        root.insert_id(&mut dev, &mut mgr, key * 2, key).unwrap();
    }
    // fill the left leaf up: keys between the first 127
    for key in 0..100u64 {
        root.insert_id(&mut dev, &mut mgr, key * 2 + 1, key).unwrap();
    }
    assert_eq!(root.len(), 2);
    // the right leaf falls short; the leaves together are too many for one
    root.remove_id(&mut dev, &mut mgr, 500);
    assert_eq!(root.len(), 2);
    let left = BtreeNode::new(root.ptrs[0], &mgr.get_data(&mut dev, root.ptrs[0]).unwrap());
    let right = BtreeNode::new(root.ptrs[1], &mgr.get_data(&mut dev, root.ptrs[1]).unwrap());
    assert_eq!(left.len(), 226);
    assert_eq!(right.len(), 127);
    assert_eq!(root.ids[1], right.ids[0]);
    assert_eq!(right.ids[0], 252);
    assert_eq!(root.find_id(&mut dev, &mut mgr, 252), Some(126));
    assert_eq!(root.find_id(&mut dev, &mut mgr, 500), None);
}

#[test]
fn removing_every_key_leaves_an_empty_leaf() {
    let mut dev = Device::new();
    let mut mgr = PageManage::new(16);
    let mut root = new_tree(&mut dev, &mut mgr);
    for key in 0..700u64 {
        root.insert_id(&mut dev, &mut mgr, key, key).unwrap();
    }
    for key in 0..700u64 {
        root.remove_id(&mut dev, &mut mgr, key);
    }
    assert!(root.is_leaf());
    assert!(root.is_empty());
    assert_eq!(root.find_unused(&mut dev, &mut mgr), Some(0));
    root.insert_id(&mut dev, &mut mgr, 8, 1).unwrap();
    assert_eq!(root.find_id(&mut dev, &mut mgr, 8), Some(1));
}

#[test]
fn part_moves_the_upper_half_to_a_new_page() {
    let mut dev = Device::new();
    let mut mgr = PageManage::new(16);
    let mut node = new_tree(&mut dev, &mut mgr);
    for key in 0..254u64 {
        node.push(key * 3, key);
    }
    let (sep, right_page) = node.part(&mut dev, &mut mgr).unwrap();
    assert_eq!(node.len(), 127);
    assert_eq!(sep, 127 * 3);
    assert_eq!(right_page, 2);
    let right = BtreeNode::new(right_page, &mgr.get_data(&mut dev, right_page).unwrap());
    assert_eq!(right.len(), 127);
    assert_eq!(right.ids[0], sep);
    assert_eq!(right.ptrs[126], 253);
    let left = BtreeNode::new(node.page_count, &mgr.get_data(&mut dev, node.page_count).unwrap());
    assert_eq!(left.ids, node.ids);

    let mut odd = new_tree(&mut dev, &mut mgr);
    for key in 0..255u64 {
        odd.push(key, key);
    }
    let (sep, _) = odd.part(&mut dev, &mut mgr).unwrap();
    assert_eq!(odd.len(), 128);
    assert_eq!(sep, 128);
}

#[test]
fn part_fails_without_a_free_page() {
    let mut dev = Device::with_limit(2);
    let mut mgr = PageManage::new(16);
    let mut node = new_tree(&mut dev, &mut mgr);
    node.push(1, 1);
    node.push(2, 2);
    assert_eq!(node.part(&mut dev, &mut mgr), Err(Error::Io));
    assert_eq!(node.ids, vec![1, 2]);
}

/// Walks the subtree on `page`, checks each node, and returns the keys in order.
fn walk(dev: &mut Device, mgr: &mut PageManage, page: u64, lo: u64, hi: Option<u64>, keys: &mut Vec<u64>) -> usize {
    let node = BtreeNode::new(page, &mgr.get_data(dev, page).unwrap());
    assert!(node.is_leaf() || node.is_internal());
    assert!(node.len() >= 1 && node.len() <= MAX_IDS);
    assert_eq!(node.ids.len(), node.ptrs.len());
    for pair in node.ids.windows(2) {
        assert!(pair[0] < pair[1]);
    }
    assert!(lo <= node.ids[0]);
    if let Some(hi) = hi {
        assert!(*node.ids.last().unwrap() < hi);
    }
    if node.is_leaf() {
        keys.extend(&node.ids);
        return 0;
    }
    let mut height = None;
    for i in 0..node.len() {
        let upper = if i + 1 < node.len() { Some(node.ids[i + 1]) } else { hi };
        let below = walk(dev, mgr, node.ptrs[i], node.ids[i], upper, keys);
        assert_eq!(*height.get_or_insert(below), below);
    }
    height.unwrap() + 1
}

#[test]
fn every_node_is_in_order() {
    let mut dev = Device::new();
    let mut mgr = PageManage::new(6);
    let mut root = new_tree(&mut dev, &mut mgr);
    let mut expected = Vec::new();
    let mut key: u64 = 7;
    for _ in 0..5000 {
        key = key.wrapping_mul(6364136223846793005).wrapping_add(1442695040888963407);
        let k = key >> 44;
        if root.insert_id(&mut dev, &mut mgr, k, k + 1).is_ok() {
            expected.push(k);
        }
    }
    for (n, k) in expected.clone().iter().enumerate() {
        if n % 4 == 1 {
            root.remove_id(&mut dev, &mut mgr, *k);
            expected.retain(|e| e != k);
        }
    }
    expected.sort();
    let mut keys = Vec::new();
    let height = walk(&mut dev, &mut mgr, root.page_count, 0, None, &mut keys);
    assert!(height >= 1);
    assert_eq!(keys, expected);
    // the root in memory is the root on its page
    let stored = BtreeNode::new(root.page_count, &mgr.get_data(&mut dev, root.page_count).unwrap());
    assert_eq!(stored.ids, root.ids);
    assert_eq!(stored.ptrs, root.ptrs);
    assert_eq!(stored.node_type, root.node_type);
}

#[test]
fn tree_of_three_levels_grows_and_shrinks() {
    let mut dev = Device::new();
    let mut mgr = PageManage::new(32);
    let mut root = new_tree(&mut dev, &mut mgr);
    let count: u64 = 40_000;
    for key in 0..count {
        root.insert_id(&mut dev, &mut mgr, key, key ^ 0xff).unwrap();
    }
    let mut keys = Vec::new();
    assert_eq!(walk(&mut dev, &mut mgr, root.page_count, 0, None, &mut keys), 2);
    assert_eq!(keys.len() as u64, count);
    assert_eq!(root.find_unused(&mut dev, &mut mgr), Some(count));
    for key in 0..count {
        if key % 10 != 5 {
            root.remove_id(&mut dev, &mut mgr, key);
        }
    }
    let mut keys = Vec::new();
    walk(&mut dev, &mut mgr, root.page_count, 0, None, &mut keys);
    assert_eq!(keys, (0..count).filter(|k| k % 10 == 5).collect::<Vec<u64>>());
    assert_eq!(root.find_id(&mut dev, &mut mgr, 35), Some(35 ^ 0xff));
    assert_eq!(root.find_id(&mut dev, &mut mgr, 36), None);
    assert_eq!(root.find_unused(&mut dev, &mut mgr), Some(0));
}

fn pages_in_use(dev: &mut Device, mgr: &mut PageManage) -> usize {
    let bitmap = mgr.get_data(dev, 0).unwrap();
    bitmap.iter().map(|byte| byte.count_ones() as usize).sum()
}

#[test]
fn remove_merges_the_first_leaf_into_its_right_sibling() {
    let mut dev = Device::new();
    let mut mgr = PageManage::new(16);
    let mut root = new_tree(&mut dev, &mut mgr);
    for key in 0..254u64 {
        root.insert_id(&mut dev, &mut mgr, key, key + 1000).unwrap();
    }
    assert_eq!(root.ids, vec![0, 127]);
    let left_page = root.ptrs[0];
    let right_page = root.ptrs[1];
    let used = pages_in_use(&mut dev, &mut mgr);
    // the first leaf falls to 126 entries and has no left sibling
    root.remove_id(&mut dev, &mut mgr, 5);
    assert_eq!(root.ids, vec![0]);
    assert_eq!(root.ptrs, vec![right_page]);
    let merged = BtreeNode::new(right_page, &mgr.get_data(&mut dev, right_page).unwrap());
    assert_eq!(merged.len(), 253);
    assert_eq!(merged.ids[0], 0);
    assert_eq!(merged.ids[5], 6);
    assert_eq!(merged.ids[126], 127);
    assert_eq!(merged.ptrs[126], 1127);
    assert_eq!(merged.ids[252], 253);
    assert_eq!(pages_in_use(&mut dev, &mut mgr), used - 1);
    assert_eq!(mgr.allocate(&mut dev, PageType::General).unwrap().count, left_page);
    assert_eq!(root.find_id(&mut dev, &mut mgr, 5), None);
    assert_eq!(root.find_id(&mut dev, &mut mgr, 0), Some(1000));
    assert_eq!(root.find_id(&mut dev, &mut mgr, 253), Some(1253));
}

#[test]
fn remove_borrows_from_the_right_sibling() {
    let mut dev = Device::new();
    let mut mgr = PageManage::new(16);
    let mut root = new_tree(&mut dev, &mut mgr);
    for key in 0..354u64 {
        root.insert_id(&mut dev, &mut mgr, key, key).unwrap();
    }
    assert_eq!(root.ids, vec![0, 127]);
    let used = pages_in_use(&mut dev, &mut mgr);
    // the first leaf falls short; with the 227 of the second it is too many for one
    root.remove_id(&mut dev, &mut mgr, 3);
    assert_eq!(root.ids, vec![0, 128]);
    let left = BtreeNode::new(root.ptrs[0], &mgr.get_data(&mut dev, root.ptrs[0]).unwrap());
    let right = BtreeNode::new(root.ptrs[1], &mgr.get_data(&mut dev, root.ptrs[1]).unwrap());
    assert_eq!(left.len(), 127);
    assert_eq!(left.ids[126], 127);
    assert_eq!(right.len(), 226);
    assert_eq!(right.ids[0], 128);
    assert_eq!(pages_in_use(&mut dev, &mut mgr), used);
    assert_eq!(root.find_id(&mut dev, &mut mgr, 127), Some(127));
    assert_eq!(root.find_id(&mut dev, &mut mgr, 3), None);
}

#[test]
fn remove_borrows_the_last_entry_of_the_left_sibling() {
    let mut dev = Device::new();
    let mut mgr = PageManage::new(16);
    let mut root = new_tree(&mut dev, &mut mgr);
    for key in 0..254u64 {
        root.insert_id(&mut dev, &mut mgr, key * 2, key).unwrap();
    }
    for key in 0..100u64 {
        root.insert_id(&mut dev, &mut mgr, key * 2 + 1, key).unwrap();
    }
    assert_eq!(root.ids, vec![0, 254]);
    root.remove_id(&mut dev, &mut mgr, 500);
    // the key that moved is the child's key in the parent
    assert_eq!(root.ids, vec![0, 252]);
    let left = BtreeNode::new(root.ptrs[0], &mgr.get_data(&mut dev, root.ptrs[0]).unwrap());
    let right = BtreeNode::new(root.ptrs[1], &mgr.get_data(&mut dev, root.ptrs[1]).unwrap());
    assert_eq!(left.ids[225], 250);
    assert_eq!(right.ids[0], 252);
    assert_eq!(right.ptrs[0], 126);
    assert_eq!(right.ids[1], 254);
}

#[test]
fn remove_at_a_leaf_root_cuts_one_entry() {
    let mut dev = Device::new();
    let mut mgr = PageManage::new(16);
    let mut root = new_tree(&mut dev, &mut mgr);
    for key in [10u64, 20, 30, 40] {
        root.insert_id(&mut dev, &mut mgr, key, key + 1).unwrap();
    }
    let used = pages_in_use(&mut dev, &mut mgr);
    root.remove_id(&mut dev, &mut mgr, 30);
    assert_eq!(root.ids, vec![10, 20, 40]);
    assert_eq!(root.ptrs, vec![11, 21, 41]);
    root.remove_id(&mut dev, &mut mgr, 35);
    assert_eq!(root.ids, vec![10, 20, 40]);
    let stored = BtreeNode::new(root.page_count, &mgr.get_data(&mut dev, root.page_count).unwrap());
    assert_eq!(stored.ids, vec![10, 20, 40]);
    assert_eq!(pages_in_use(&mut dev, &mut mgr), used);
}

#[test]
fn leaf_root_splits_with_its_254th_entry_only() {
    let mut dev = Device::new();
    let mut mgr = PageManage::new(16);
    let mut root = new_tree(&mut dev, &mut mgr);
    for key in 0..253u64 {
        root.insert_id(&mut dev, &mut mgr, key, key).unwrap();
    }
    assert!(root.is_leaf());
    assert_eq!(root.len(), 253);
    let used = pages_in_use(&mut dev, &mut mgr);
    root.insert_id(&mut dev, &mut mgr, 253, 253).unwrap();
    assert!(root.is_internal());
    assert_eq!(root.len(), 2);
    assert_eq!(pages_in_use(&mut dev, &mut mgr), used + 2);
}

#[test]
fn split_of_a_leaf_root_needs_two_pages() {
    // with the root on page 1, the limit leaves one free page, then two
    for (limit, split) in [(3usize, false), (4usize, true)] {
        let mut dev = Device::with_limit(limit);
        let mut mgr = PageManage::new(16);
        let mut root = new_tree(&mut dev, &mut mgr);
        for key in 0..253u64 {
            root.insert_id(&mut dev, &mut mgr, key, key).unwrap();
        }
        let last = root.insert_id(&mut dev, &mut mgr, 253, 253);
        if split {
            assert_eq!(last, Ok(()));
            assert!(root.is_internal());
            assert_eq!(root.ids, vec![0, 127]);
        } else {
            assert_eq!(last, Err(Error::Io));
        }
    }
}
