use bplustree::dir_page::DirectoryPage;
use bplustree::free_page::FreePage;
use bplustree::leaf_page::LeafPage;
use bplustree::metadata_page::MetadataPage;
use bplustree::page::{PageIsFullError, DIR_KEY_COUNT, LEAF_RECORD_COUNT};

fn leaf_with(keys: &[u32]) -> LeafPage {
    let mut l = LeafPage::init();
    for k in keys {
        l.put(*k, k * 10).unwrap();
    }
    l
}

fn dir_with(keys: &[u32]) -> DirectoryPage {
    let mut d = DirectoryPage::init();
    d.keys = keys.to_vec();
    d.pointers = (0..=keys.len() as u64).map(|i| 100 + i).collect();
    d
}

#[test]
fn leaf_put_keeps_keys_sorted() {
    let l = leaf_with(&[5, 1, 9, 3]);
    assert_eq!(l.iter(), vec![(1, 10), (3, 30), (5, 50), (9, 90)]);
    assert_eq!(l.count(), 4);
    assert_eq!(l.get(2), (5, 50));
}

#[test]
fn leaf_find_index_hit_and_miss() {
    let l = leaf_with(&[2, 4, 6]);
    assert_eq!(l.find_index(4), Ok(1));
    assert_eq!(l.find_index(1), Err(0));
    assert_eq!(l.find_index(5), Err(2));
    assert_eq!(l.find_index(7), Err(3));
    assert_eq!(l.find_value(6), Some(60));
    assert_eq!(l.find_value(3), None);
}

#[test]
fn leaf_update_and_full_page() {
    let keys: Vec<u32> = (0..LEAF_RECORD_COUNT as u32).collect();
    let mut l = leaf_with(&keys);
    assert!(l.is_full());
    assert_eq!(l.put(10, 7), Ok(()));
    assert_eq!(l.find_value(10), Some(7));
    assert_eq!(l.put(100000, 1), Err(PageIsFullError {}));
    assert_eq!(l.count(), LEAF_RECORD_COUNT);
    assert_eq!(PageIsFullError {}.message(), "Page is full!");
}

#[test]
fn leaf_delete() {
    let mut l = leaf_with(&[1, 2, 3]);
    assert!(l.delete(2));
    assert!(!l.delete(2));
    assert_eq!(l.iter(), vec![(1, 10), (3, 30)]);
}

#[test]
fn leaf_split_and_merge() {
    let keys: Vec<u32> = (0..LEAF_RECORD_COUNT as u32).collect();
    let mut l = leaf_with(&keys);
    let upper = l.split();
    assert_eq!(l.count(), 251);
    assert_eq!(upper.count(), 251);
    assert_eq!(upper.get(0), (251, 2510));
    assert!(!l.is_underfull());
    assert!(!l.can_allow_stolen_key());
    l.merge_with(&upper);
    assert_eq!(l.count(), LEAF_RECORD_COUNT);
    assert_eq!(l.get(501), (501, 5010));
}

#[test]
fn leaf_steal_high_and_low() {
    let keys: Vec<u32> = (0..260).collect();
    let mut l = leaf_with(&keys);
    assert!(l.can_allow_stolen_key());
    assert_eq!(l.steal_high(), (259, 2590));
    assert_eq!(l.steal_low(), (0, 0));
    assert_eq!(l.count(), 258);
    assert_eq!(l.get(0), (1, 10));
}

#[test]
fn leaf_underfull_threshold() {
    let keys: Vec<u32> = (0..250).collect();
    let mut l = leaf_with(&keys);
    assert!(l.is_underfull());
    l.put(1000, 1).unwrap();
    assert!(!l.is_underfull());
}

#[test]
fn dir_find_pointer_idx() {
    let d = dir_with(&[10, 20, 30]);
    assert_eq!(d.find_pointer_idx(5), 0);
    assert_eq!(d.find_pointer_idx(10), 1);
    assert_eq!(d.find_pointer_idx(15), 1);
    assert_eq!(d.find_pointer_idx(30), 3);
    assert_eq!(d.find_pointer_idx(99), 3);
    assert_eq!(d.find_pointer(25), 102);
    assert_eq!(DirectoryPage::init().find_pointer_idx(7), 0);
}

#[test]
fn dir_split_at_ptr_inserts_after_child() {
    let mut d = dir_with(&[10, 20, 30]);
    d.split_at_ptr(101, 15, 500).unwrap();
    assert_eq!(d.keys, vec![10, 15, 20, 30]);
    assert_eq!(d.pointers, vec![100, 101, 500, 102, 103]);
}

#[test]
fn dir_split_at_ptr_full() {
    let keys: Vec<u32> = (0..DIR_KEY_COUNT as u32).map(|k| k * 2).collect();
    let mut d = dir_with(&keys);
    assert!(d.is_full());
    assert_eq!(d.split_at_ptr(100, 1, 7), Err(PageIsFullError {}));
}

#[test]
fn dir_split_page_halves() {
    let keys: Vec<u32> = (0..DIR_KEY_COUNT as u32).collect();
    let mut d = dir_with(&keys);
    let (sep, upper) = d.split_page();
    assert_eq!(sep, 167);
    assert_eq!(d.count(), 167);
    assert_eq!(upper.count(), 167);
    assert_eq!(upper.keys[0], 168);
    assert_eq!(d.pointers.len(), 168);
    assert_eq!(upper.pointers[0], 100 + 168);
    assert!(!d.is_underfull());
    assert!(!d.can_allow_stolen_key());
}

#[test]
fn dir_delete_idx() {
    let mut d = dir_with(&[10, 20, 30]);
    d.delete_idx(2);
    assert_eq!(d.keys, vec![10, 30]);
    assert_eq!(d.pointers, vec![100, 101, 103]);
}

#[test]
fn dir_steal_and_merge() {
    let mut left = dir_with(&[4]);
    left.pointers = vec![4, 5];
    let mut right = dir_with(&[6]);
    right.pointers = vec![6, 7];
    let k = right.steal_high_from(&mut left, 1);
    assert_eq!(k, 4);
    assert_eq!(left.keys, Vec::<u32>::new());
    assert_eq!(left.pointers, vec![4]);
    assert_eq!(right.keys, vec![1, 6]);
    assert_eq!(right.pointers, vec![5, 6, 7]);

    let k = left.steal_low_from(&mut right, 4);
    assert_eq!(k, 1);
    assert_eq!(left.keys, vec![4]);
    assert_eq!(left.pointers, vec![4, 5]);
    assert_eq!(right.keys, vec![6]);
    assert_eq!(right.pointers, vec![6, 7]);

    left.merge_with(&right, 5);
    assert_eq!(left.keys, vec![4, 5, 6]);
    assert_eq!(left.pointers, vec![4, 5, 6, 7]);
}

#[test]
fn small_pages_init() {
    assert_eq!(FreePage::init(9).next_free_page, 9);
    let m = MetadataPage::init(0, 1, 2, 2, 3, 1);
    assert_eq!((m.root_page, m.data_head, m.data_tail, m.pages_allocated, m.depth), (1, 2, 2, 3, 1));
}
