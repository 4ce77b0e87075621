use std::collections::HashSet;

use bplustree::bplus_tree::{BPlusTree, Page, TreeError};
use bplustree::free_page::FreePage;
use bplustree::page::PagePointer;
use bplustree::codec::encode_store;

use rand::{rngs::StdRng, RngCore, SeedableRng};

fn assert_consistent(tree: &BPlusTree) {
    match tree.check_tree() {
        Err(err) => panic!("error reading tree: {:?}", err),
        Ok(Some(msg)) => panic!("error in tree: {}", msg),
        Ok(None) => (),
    }
}

fn reopen(tree: BPlusTree) -> BPlusTree {
    BPlusTree::open(tree.pages).expect("reopen")
}

#[test]
fn test_allocation() {
    let mut tests: Vec<(PagePointer, PagePointer)> = Vec::new();

    let mut tree = BPlusTree::init();

    let ptr = tree.alloc_page(Page::Free(FreePage::init(0xfeed))).unwrap();
    assert!(tree.get_free(ptr).unwrap().next_free_page == 0xfeed);

    let ptrs: Vec<PagePointer> = (0..16u64)
        .map(|i| tree.alloc_page(Page::Free(FreePage::init(0xbeef0000 + i))).expect("Page allocation failed"))
        .collect();

    for i in 0..ptrs.len() {
        let test = tree.get_free(ptrs[i]).unwrap();
        assert!(test.next_free_page == (0xbeef0000 + i) as u64);
    }

    tree.free_page(ptr).unwrap();
    tree.free_page(ptrs[8]).unwrap();
    tree.free_page(ptrs[9]).unwrap();

    let more_ptrs: Vec<PagePointer> = (0..5u64)
        .map(|i| tree.alloc_page(Page::Free(FreePage::init(0xabcd0000 + i))).expect("Page allocation failed"))
        .collect();

    for i in 0..more_ptrs.len() {
        let test = tree.get_free(more_ptrs[i]).unwrap();
        assert!(test.next_free_page == (0xabcd0000 + i) as u64);
    }

    let re_use_check: HashSet<PagePointer> = more_ptrs.clone().into_iter().collect();
    assert!(re_use_check.contains(&ptr));
    assert!(re_use_check.contains(&ptrs[8]));
    assert!(re_use_check.contains(&ptrs[9]));

    for i in 0..ptrs.len() {
        if (i != 8) && (i != 9) {
            tests.push((ptrs[i], (0xbeef0000 + i) as u64));
        }
    }
    for i in 0..more_ptrs.len() {
        tests.push((more_ptrs[i], (0xabcd0000 + i) as u64));
    }

    let tree = reopen(tree);
    for (ptr, value) in tests {
        let test = tree.get_free(ptr).unwrap();
        assert!(test.next_free_page == value);
    }
}

#[test]
fn test_read_write() {
    let mut tree = BPlusTree::init();

    assert_consistent(&tree);
    for (k, v) in [(10, 111), (12, 222), (8, 333), (7, 444), (9, 555), (14, 666)] {
        tree.put(k, v).unwrap();
        assert_consistent(&tree);
    }

    let elems: Vec<(u32, u32)> = tree.iter().unwrap();
    assert!(elems.len() == 6);
    assert!(elems[0] == (7, 444));
    assert!(elems[1] == (8, 333));
    assert!(elems[2] == (9, 555));
    assert!(elems[3] == (10, 111));
    assert!(elems[4] == (12, 222));
    assert!(elems[5] == (14, 666));
    assert!(tree.depth() == 1);

    let mut tests: Vec<u32> = Vec::new();
    for _i in 0..1000 {
        let k = rand::random::<u32>();
        tree.put(k, k % 10000).unwrap();
        assert_consistent(&tree);
        tests.push(k);
    }

    for k in tests {
        assert!(tree.get(k).unwrap().expect("Key not defined") == k % 10000);
    }
}

#[test]
fn test_delete() {
    let mut tree = BPlusTree::init();

    tree.put(50000, 12345).unwrap();

    let mut tests: Vec<u32> = Vec::new();
    let mut rng = StdRng::seed_from_u64(7069);

    for _i in 0..1000 {
        let k = rng.next_u32() % 10000;
        if k != 50000 {
            tree.put(k, k % 10000).unwrap();
            tests.push(k);
        }
        assert_consistent(&tree);
    }

    assert_consistent(&tree);

    for k in tests.iter() {
        assert!(tree.get(*k).unwrap().expect("Key not defined") == k % 10000);
    }
    assert!(tree.get(50000).unwrap().expect("Key not defined") == 12345);

    for k in tests {
        tree.delete(k).unwrap();
        assert!(tree.get(k).unwrap().is_none());
    }
    assert!(tree.get(50000).unwrap() == Some(12345));
    assert!(tree.depth() == 1);
}

#[test]
fn leaf_split_boundary() {
    let mut tree = BPlusTree::init();
    for k in 0..503u32 {
        tree.put(k * 2, k).unwrap();
    }
    assert_eq!(tree.depth(), 1);
    let head = tree.get_leaf(tree.meta.data_head).unwrap();
    assert!(head.next != 0);
    let second = tree.get_leaf(head.next).unwrap();
    assert_eq!(second.next, 0);
    assert_eq!(tree.meta.data_tail, head.next);
    let elems = tree.iter().unwrap();
    assert_eq!(elems.len(), 503);
    for (i, (k, v)) in elems.iter().enumerate() {
        assert_eq!(*k, (i as u32) * 2);
        assert_eq!(*v, i as u32);
    }
    assert_consistent(&tree);
}

#[test]
fn root_split_raises_depth() {
    let mut tree = BPlusTree::init();
    let mut k: u32 = 0;
    while tree.depth() == 1 {
        tree.put(k, k).unwrap();
        k += 1;
        assert!(k <= 503 * 336);
    }
    assert_eq!(tree.depth(), 2);
    let root = tree.get_dir(tree.meta.root_page).unwrap();
    assert_eq!(root.count(), 1);
    assert_consistent(&tree);
    for probe in [0u32, 1, k / 2, k - 1] {
        assert_eq!(tree.get(probe).unwrap(), Some(probe));
    }
    assert_eq!(tree.get(k).unwrap(), None);
}

#[test]
fn overwrite_keeps_last_value() {
    let mut tree = BPlusTree::init();
    tree.put(5, 1).unwrap();
    tree.put(5, 2).unwrap();
    tree.put(6, 3).unwrap();
    assert_eq!(tree.get(5).unwrap(), Some(2));
    assert_eq!(tree.iter().unwrap(), vec![(5, 2), (6, 3)]);
}

#[test]
fn missing_and_deleted_keys_are_absent() {
    let mut tree = BPlusTree::init();
    assert_eq!(tree.get(1).unwrap(), None);
    tree.put(1, 10).unwrap();
    tree.delete(1).unwrap();
    tree.delete(1).unwrap();
    assert_eq!(tree.get(1).unwrap(), None);
    assert!(tree.iter().unwrap().is_empty());
    assert_consistent(&tree);
}

#[test]
fn free_then_alloc_reuses_page() {
    let mut tree = BPlusTree::init();
    let a = tree.alloc_page(Page::Free(FreePage::init(1))).unwrap();
    assert_eq!(a, 3);
    assert_eq!(tree.meta.pages_allocated, 4);
    let b = tree.alloc_page(Page::Free(FreePage::init(2))).unwrap();
    assert_eq!(b, 4);
    tree.free_page(a).unwrap();
    tree.free_page(b).unwrap();
    assert_eq!(tree.alloc_page(Page::Free(FreePage::init(3))).unwrap(), b);
    assert_eq!(tree.alloc_page(Page::Free(FreePage::init(4))).unwrap(), a);
    assert_eq!(tree.alloc_page(Page::Free(FreePage::init(5))).unwrap(), 5);
    assert_eq!(tree.meta.pages_allocated as usize, tree.pages.len());
}

#[test]
fn random_mix_matches_model() {
    let mut tree = BPlusTree::init();
    let mut model = std::collections::BTreeMap::new();
    let mut rng = StdRng::seed_from_u64(42);
    for step in 0..6000u32 {
        let k = rng.next_u32() % 3000;
        if rng.next_u32() % 3 == 0 {
            tree.delete(k).unwrap();
            model.remove(&k);
        } else {
            tree.put(k, step).unwrap();
            model.insert(k, step);
        }
        if step % 500 == 0 {
            assert_consistent(&tree);
        }
    }
    assert_consistent(&tree);
    let expected: Vec<(u32, u32)> = model.iter().map(|(k, v)| (*k, *v)).collect();
    assert_eq!(tree.iter().unwrap(), expected);
    for k in 0..3000u32 {
        assert_eq!(tree.get(k).unwrap(), model.get(&k).copied());
    }
}

#[test]
fn deep_tree_shrinks_back() {
    let mut tree = BPlusTree::init();
    let n: u32 = 90000;
    for k in 0..n {
        tree.put(k, k + 1).unwrap();
    }
    assert_eq!(tree.depth(), 2);
    assert_consistent(&tree);
    for k in 0..n {
        tree.delete(k).unwrap();
    }
    assert_consistent(&tree);
    assert_eq!(tree.depth(), 1);
    assert!(tree.iter().unwrap().is_empty());
}

#[test]
fn fresh_tree_layout_is_consistent() {
    let tree = BPlusTree::init();
    assert!(tree.is_wf());
    assert_eq!(tree.pages.len(), 3);
    assert_eq!((tree.meta.root_page, tree.meta.data_head, tree.meta.data_tail), (1, 2, 2));
    assert_eq!((tree.meta.next_free_page, tree.meta.pages_allocated, tree.meta.depth), (0, 3, 1));
    assert_eq!(tree.get_dir(1).unwrap().pointers, vec![2]);
    assert_eq!(tree.find_page(77).unwrap(), vec![1, 2]);
    assert_eq!(tree.check_tree().unwrap(), None);
}

#[test]
fn page_access_errors() {
    let mut tree = BPlusTree::init();
    assert_eq!(tree.get_leaf(1).err(), Some(TreeError::WrongPageType(1)));
    assert_eq!(tree.get_dir(2).err(), Some(TreeError::WrongPageType(2)));
    assert_eq!(tree.get_page(9).err(), Some(TreeError::BadPointer(9)));
    assert_eq!(tree.get_free(2).err(), Some(TreeError::WrongPageType(2)));
    assert_eq!(tree.put_page(0, Page::Free(FreePage::init(0))), Err(TreeError::BadPointer(0)));
    assert_eq!(tree.free_page(7), Err(TreeError::BadPointer(7)));
    assert_eq!(TreeError::Corrupt.message(), "tree structure is corrupt");
}

#[test]
fn open_refuses_bad_stores() {
    assert_eq!(BPlusTree::open(Vec::new()).err(), Some(TreeError::Corrupt));
    let mut pages = BPlusTree::init().pages;
    pages.swap(0, 1);
    assert_eq!(BPlusTree::open(pages).err(), Some(TreeError::WrongPageType(0)));
    let mut pages = BPlusTree::init().pages;
    pages.pop();
    assert_eq!(BPlusTree::open(pages).err(), Some(TreeError::Corrupt));
}

#[test]
fn broken_back_link_is_reported() {
    let mut tree = BPlusTree::init();
    tree.put(1, 1).unwrap();
    let mut leaf = tree.get_leaf(2).unwrap();
    leaf.prev = 1;
    tree.put_page(2, Page::Leaf(leaf)).unwrap();
    assert!(tree.is_wf());
    assert!(tree.check_tree().unwrap().is_some());
}

#[test]
fn cyclic_chain_is_refused() {
    let mut tree = BPlusTree::init();
    let mut leaf = tree.get_leaf(2).unwrap();
    leaf.next = 2;
    tree.put_page(2, Page::Leaf(leaf)).unwrap();
    assert_eq!(tree.iter().err(), Some(TreeError::Corrupt));
    assert!(tree.check_tree().unwrap().is_some());
}

fn count_leaves(tree: &BPlusTree, ptr: u64, level: u16) -> usize {
    if level == tree.depth() {
        return 1;
    }
    let dir = tree.get_dir(ptr).unwrap();
    dir.pointers.iter().map(|p| count_leaves(tree, *p, level + 1)).sum()
}

#[test]
fn leaf_chain_runs_head_to_tail() {
    let mut tree = BPlusTree::init();
    let mut rng = StdRng::seed_from_u64(9);
    for _ in 0..20000 {
        let k = rng.next_u32() % 50000;
        tree.put(k, k).unwrap();
    }
    for _ in 0..15000 {
        let k = rng.next_u32() % 50000;
        tree.delete(k).unwrap();
    }
    assert_consistent(&tree);
    let head = tree.get_leaf(tree.meta.data_head).unwrap();
    assert_eq!(head.prev, 0);
    let tail = tree.get_leaf(tree.meta.data_tail).unwrap();
    assert_eq!(tail.next, 0);
    let mut hops = 0;
    let mut ptr = tree.meta.data_head;
    while ptr != tree.meta.data_tail {
        ptr = tree.get_leaf(ptr).unwrap().next;
        hops += 1;
    }
    assert_eq!(hops + 1, count_leaves(&tree, tree.meta.root_page, 0));
}

#[test]
fn free_list_stays_acyclic_and_is_reused() {
    let mut tree = BPlusTree::init();
    for k in 0..60000u32 {
        tree.put(k, k).unwrap();
    }
    for k in 0..60000u32 {
        if k % 4 != 0 {
            tree.delete(k).unwrap();
        }
    }
    assert_consistent(&tree);
    let mut seen = HashSet::new();
    let mut ptr = tree.meta.next_free_page;
    while ptr != 0 {
        assert!(seen.insert(ptr), "free list revisits page {}", ptr);
        ptr = tree.get_free(ptr).unwrap().next_free_page;
    }
    assert!(!seen.is_empty());
    let pages_before = tree.pages.len();
    let head = tree.meta.next_free_page;
    for k in 0..60000u32 {
        if k % 4 != 0 {
            tree.put(k, k).unwrap();
        }
    }
    assert_consistent(&tree);
    assert!(tree.get_leaf(head).is_ok() || tree.get_dir(head).is_ok());
    assert!(tree.pages.len() >= pages_before);
}

#[test]
fn wrong_page_kind_is_a_diagnostic() {
    let mut tree = BPlusTree::init();
    tree.put_page(2, Page::Free(FreePage::init(0))).unwrap();
    assert!(tree.check_tree().unwrap().is_some());
    assert!(tree.get(5).is_err());
}

#[test]
fn deleting_absent_key_changes_nothing() {
    let mut tree = BPlusTree::init();
    for k in 0..600u32 {
        tree.put(k, k).unwrap();
    }
    let before = encode_store(&tree);
    tree.delete(100000).unwrap();
    assert_eq!(encode_store(&tree), before);
    assert_eq!(tree.depth(), 1);
}

#[test]
fn first_leaf_split_layout() {
    let mut tree = BPlusTree::init();
    for i in 0..503u32 {
        tree.put(i, i).unwrap();
    }
    assert_eq!((tree.meta.data_head, tree.meta.data_tail), (2, 3));
    let left = tree.get_leaf(2).unwrap();
    let right = tree.get_leaf(3).unwrap();
    assert_eq!((left.prev, left.next, right.prev, right.next), (0, 3, 2, 0));
    assert_eq!(left.iter(), (0..251u32).map(|k| (k, k)).collect::<Vec<_>>());
    assert_eq!(right.iter(), (251..503u32).map(|k| (k, k)).collect::<Vec<_>>());
    let root = tree.get_dir(1).unwrap();
    assert_eq!(root.keys, vec![251]);
    assert_eq!(root.pointers, vec![2, 3]);
}
