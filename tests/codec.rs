use bplustree::bplus_tree::{BPlusTree, Page, TreeError};
use bplustree::codec::{decode_page, decode_store, encode_page, encode_store, read_u32, read_u64};
use bplustree::free_page::FreePage;
use bplustree::leaf_page::LeafPage;
use bplustree::page::PAGE_SIZE;

#[test]
fn integers_are_little_endian() {
    let mut b = vec![0u8; 16];
    bplustree::codec::write_u32(&mut b, 1, 0x11223344);
    assert_eq!(&b[1..5], &[0x44, 0x33, 0x22, 0x11]);
    assert_eq!(read_u32(&b, 1), 0x11223344);
    bplustree::codec::write_u64(&mut b, 8, 0x0102030405060708);
    assert_eq!(b[8], 0x08);
    assert_eq!(b[15], 0x01);
    assert_eq!(read_u64(&b, 8), 0x0102030405060708);
}

#[test]
fn leaf_image_round_trip() {
    let mut l = LeafPage::init();
    l.put(7, 70).unwrap();
    l.put(3, 30).unwrap();
    l.next = 12;
    l.prev = 4;
    let img = encode_page(&Page::Leaf(l));
    assert_eq!(img.len(), PAGE_SIZE);
    assert_eq!(img[0], 2);
    assert_eq!(read_u64(&img, 1), 2);
    assert_eq!(read_u32(&img, 9), 3);
    assert_eq!(read_u32(&img, 13), 30);
    assert!(img[4041..].iter().all(|b| *b == 0));
    match decode_page(&img).unwrap() {
        Page::Leaf(back) => {
            assert_eq!(back.iter(), vec![(3, 30), (7, 70)]);
            assert_eq!((back.next, back.prev), (12, 4));
        }
        _ => panic!("decoded the wrong kind of page"),
    }
}

#[test]
fn bad_images_are_refused() {
    let mut img = encode_page(&Page::Free(FreePage::init(5)));
    assert!(decode_page(&img[..PAGE_SIZE - 1]).is_err());
    img[0] = 9;
    assert_eq!(decode_page(&img).err(), Some(TreeError::Corrupt));

    let mut l = LeafPage::init();
    l.put(1, 1).unwrap();
    l.put(2, 2).unwrap();
    let mut img = encode_page(&Page::Leaf(l));
    img[9] = 5;
    assert_eq!(decode_page(&img).err(), Some(TreeError::Corrupt));
}

#[test]
fn store_round_trip_keeps_tree() {
    let mut tree = BPlusTree::init();
    for k in 0..2000u32 {
        tree.put(k * 7 % 2003, k).unwrap();
    }
    let before = tree.iter().unwrap();
    let bytes = encode_store(&tree);
    assert_eq!(bytes.len(), tree.pages.len() * PAGE_SIZE);
    let back = decode_store(&bytes).unwrap();
    assert_eq!(back.meta, tree.meta);
    assert_eq!(back.iter().unwrap(), before);
    assert_eq!(back.check_tree().unwrap(), None);
    assert!(decode_store(&bytes[..bytes.len() - 1]).is_err());
}
