//! Bits, bytes, keys, meta pages, leaves and internal pages.

use btree::bits::{pack_bits, unpack_bits};
use btree::byte::{read_u16, read_u32, write_bytes, write_u16, write_u32};
use btree::error::{Error, Fault};
use btree::internal::{Insertion, InternalPage};
use btree::key::{compare, Order};
use btree::layout::PAGE_SIZE;
use btree::leaf::LeafPage;
use btree::meta::{path_in_page, Meta};
use btree::page::Page;

#[test]
fn integers_are_little_endian() {
    let mut buf = [0u8; 8];
    write_u16(&mut buf, 1, 0x1234);
    write_u32(&mut buf, 3, 0x89abcdef);
    assert_eq!(buf, [0, 0x34, 0x12, 0xef, 0xcd, 0xab, 0x89, 0]);
    assert_eq!(read_u16(&buf, 1), 0x1234);
    assert_eq!(read_u32(&buf, 3), 0x89abcdef);
    write_bytes(&mut buf, 6, &[7, 8]);
    assert_eq!(buf[6..], [7, 8]);
}

#[test]
fn keys_compare_byte_by_byte() {
    assert_eq!(compare(b"", b""), Order::Equal);
    assert_eq!(compare(b"", b"a"), Order::Less);
    assert_eq!(compare(b"a", b"ab"), Order::Less);
    assert_eq!(compare(b"b", b"ab"), Order::Greater);
    assert_eq!(compare(&[200], &[100, 1]), Order::Greater);
}

#[test]
fn bits_go_into_bytes_and_back() {
    assert_eq!(pack_bits(&[]), Vec::<u8>::new());
    assert_eq!(pack_bits(&[true, false, true]), vec![5]);
    let mut nine = vec![false; 9];
    nine[7] = true;
    nine[8] = true;
    assert_eq!(pack_bits(&nine), vec![128, 1]);
    assert_eq!(unpack_bits(&[128, 1], 9), nine);
    assert_eq!(unpack_bits(&[5], 3), vec![true, false, true]);
    // Flags behind the last byte are not set.
    assert_eq!(unpack_bits(&[255], 10)[7..], [true, false, false]);
    let many: Vec<bool> = (0..1001).map(|i| i % 3 == 0 || i % 7 == 2).collect();
    assert_eq!(unpack_bits(&pack_bits(&many), 1001), many);
}

fn meta(base_path: Option<&str>) -> Meta {
    Meta {
        root: 3,
        num_pages: 517,
        height: 2,
        base_offset: 9,
        base_path: base_path.map(|p| p.to_string()),
    }
}

#[test]
fn a_meta_page_has_fixed_places() {
    let buf = meta(Some("/b\u{e9}")).encode();
    assert_eq!(buf.len(), PAGE_SIZE);
    assert_eq!(buf[..8], *b"SIMPLEDB");
    assert_eq!(buf[8..28], [3, 0, 0, 0, 5, 2, 0, 0, 2, 0, 0, 0, 9, 0, 0, 0, 4, 0, 0, 0]);
    assert_eq!(buf[28..32], [b'/', b'b', 0xc3, 0xa9]);
    assert!(buf[32..].iter().all(|b| *b == 0));
}

#[test]
fn a_meta_page_reads_back() {
    for path in [None, Some("/some/base.db"), Some("/b\u{e9}")] {
        let buf = meta(path).encode();
        assert!(path_in_page(&buf));
        let m = Meta::decode(&buf).unwrap();
        assert_eq!((m.root, m.num_pages, m.height, m.base_offset), (3, 517, 2, 9));
        assert_eq!(m.base_path.as_deref(), path);
        assert_eq!(m.flags_offset(), 517 * 8192);
        assert_eq!(m.flags_len(), 2);
    }
    // An empty path reads as none.
    assert_eq!(Meta::decode(&meta(Some("")).encode()).unwrap().base_path, None);
}

#[test]
fn malformed_path_text_is_replaced() {
    let mut buf = meta(Some("a_b")).encode();
    buf[29] = 0xff;
    assert_eq!(Meta::decode(&buf).unwrap().base_path.as_deref(), Some("a\u{fffd}b"));
}

#[test]
fn another_magic_is_refused() {
    let mut buf = meta(None).encode();
    buf[7] = b'b';
    assert_eq!(Meta::decode(&buf).unwrap_err(), Error::Io(Fault::BadMagic));
    assert_eq!(Meta::decode(&vec![0u8; PAGE_SIZE]).unwrap_err(), Error::Io(Fault::BadMagic));
}

#[test]
fn a_path_has_to_fit() {
    let longest = "x".repeat(PAGE_SIZE - 28);
    assert!(meta(Some(&longest)).path_fits());
    assert_eq!(
        Meta::decode(&meta(Some(&longest)).encode()).unwrap().base_path.as_deref(),
        Some(&longest[..])
    );
    assert!(!meta(Some(&(longest + "x"))).path_fits());
    assert!(meta(None).path_fits());
    let mut buf = meta(None).encode();
    write_u32(&mut buf, 24, 8164);
    assert!(path_in_page(&buf));
    write_u32(&mut buf, 24, 8165);
    assert!(!path_in_page(&buf));
    // A page that is no meta page has no path.
    buf[0] = 0;
    assert!(path_in_page(&buf));
}

#[test]
fn faults_have_messages() {
    let all = [
        (Fault::BadMagic, "bad magic"),
        (Fault::BadPage, "bad page"),
        (Fault::BadInternalPage, "bad internal page"),
        (Fault::BadLeafPage, "bad leaf page"),
        (Fault::DuplicateSeparator, "duplicate separator"),
        (Fault::EndlessChain, "endless chain of leaves"),
    ];
    for (fault, text) in all {
        assert_eq!(fault.message(), text);
    }
}

fn entries(page: &Page) -> Vec<(Vec<u8>, Vec<u8>)> {
    (0..page.slot_count() as usize)
        .map(|i| {
            let (k, v) = page.get_key_value_at_slot(i).unwrap();
            (k.to_vec(), v.to_vec())
        })
        .collect()
}

fn full_leaf() -> LeafPage {
    let mut page = Page::new(4);
    page.set_next_leaf_page_id(Some(77));
    let mut leaf = LeafPage::from_page(page);
    for i in 0..8u8 {
        assert!(leaf.insert(&[b'k', b'0' + i], &vec![i; 1000]));
    }
    leaf
}

#[test]
fn a_full_leaf_splits_in_the_middle() {
    let mut leaf = full_leaf();
    assert!(!leaf.insert(b"k8", &vec![8; 1000]));
    let split = leaf.split(b"k8", &vec![8; 1000], 5).unwrap();
    let left = leaf.into_page();
    assert_eq!(split.separator_key, b"k5");
    assert_eq!(entries(&left).len(), 5);
    assert_eq!(entries(&split.right_page).len(), 4);
    assert_eq!(entries(&split.right_page)[3], (b"k8".to_vec(), vec![8; 1000]));
    assert_eq!(left.next_leaf_page_id(), Some(5));
    assert_eq!(split.right_page.next_leaf_page_id(), Some(77));
    assert_eq!((left.page_id(), split.right_page.page_id()), (4, 5));
}

#[test]
fn a_leaf_replaces_and_removes() {
    let mut leaf = full_leaf();
    assert_eq!(leaf.remove(b"k3"), Ok(Some(vec![3; 1000])));
    assert_eq!(leaf.remove(b"k3"), Ok(None));
    assert!(leaf.insert(b"k4", b"short"));
    let page = leaf.into_page();
    assert_eq!(page.get(b"k4"), Some(&b"short"[..]));
    assert_eq!(page.get(b"k3"), None);
    assert_eq!(page.slot_count(), 7);
}

#[test]
fn a_leaf_with_a_large_entry_is_not_split() {
    let mut page = Page::new(1);
    page.put(b"a", &vec![1; 5000]).unwrap();
    page.put(b"b", &vec![1; 3000]).unwrap();
    let mut leaf = LeafPage::from_page(page);
    assert!(!leaf.is_splittable());
    assert!(!leaf.insert(b"c", &vec![1; 200]));
    assert!(leaf.split(b"c", &vec![1; 200], 2).is_none());
    assert_eq!(entries(&leaf.into_page()).len(), 2);
}

#[test]
fn internal_pages_lead_to_children() {
    let mut node = InternalPage::new_root(9, 2, b"m", 3);
    assert_eq!(node.leftmost_child(), 2);
    assert_eq!(node.find_child(b""), 2);
    assert_eq!(node.find_child(b"lzz"), 2);
    assert_eq!(node.find_child(b"m"), 3);
    assert_eq!(node.find_child(b"z"), 3);
    assert_eq!(node.insert(b"m", 5), Insertion::Duplicate);
    assert_eq!(node.insert(b"t", 4), Insertion::Done);
    assert_eq!(node.find_child(b"s"), 3);
    assert_eq!(node.find_child(b"t"), 4);
    let page = node.into_page();
    assert_eq!(page.page_id(), 9);
    assert_eq!(
        entries(&page),
        vec![(b"m".to_vec(), vec![3, 0, 0, 0]), (b"t".to_vec(), vec![4, 0, 0, 0])]
    );
}

#[test]
fn a_full_internal_page_moves_its_middle_up() {
    let key = |i: u8| vec![i; 1024];
    let mut node = InternalPage::new_root(9, 100, &key(0), 101);
    for i in 1..7u8 {
        assert_eq!(node.insert(&key(i), 101 + i as u32), Insertion::Done);
    }
    assert_eq!(node.insert(&key(7), 108), Insertion::PageFull);
    let split = node.split(&key(7), 108, 10);
    assert_eq!(split.separator_key, key(3));
    let right = InternalPage::from_page(split.right_page);
    assert_eq!(right.leftmost_child(), 104);
    assert_eq!(right.find_child(&key(7)), 108);
    let left = node.into_page();
    assert_eq!(entries(&left).len(), 3);
    assert_eq!(entries(&right.into_page()).len(), 4);
}

#[test]
fn other_pages_are_no_internal_pages() {
    let mut page = Page::new(1);
    page.put(b"k", b"123").unwrap();
    let node = InternalPage::from_page(page);
    assert!(!node.is_internal());
    assert_eq!(node.try_child(b"a"), Some(0));
    assert_eq!(node.try_child(b"k"), None);
    let mut page = Page::new(1);
    page.put(&vec![1; 1025], b"1234").unwrap();
    let node = InternalPage::from_page(page);
    assert!(node.is_internal());
    assert_eq!(node.find_child(b"z"), 0x34333231);
    assert!(InternalPage::from_page(Page::new(1)).is_internal());
    // A page without slots leads to its leftmost child, whatever its header says.
    let node = InternalPage::from_page(Page::from_bytes(&vec![0; 8192]));
    assert!(!node.is_internal());
    assert_eq!(node.find_child(b"k"), 0);
}

#[test]
fn pages_with_long_separators_split() {
    let key = |i: u8| vec![i; 3000];
    let mut node = InternalPage::new_root(9, 100, &key(0), 101);
    assert_eq!(node.insert(&key(2), 103), Insertion::Done);
    assert_eq!(node.insert(&vec![1; 8161], 102), Insertion::PageFull);
    let split = node.split(&vec![1; 8161], 102, 10);
    assert_eq!(split.separator_key, vec![1; 8161]);
    assert_eq!(entries(&node.into_page()), vec![(key(0), vec![101, 0, 0, 0])]);
    assert_eq!(entries(&split.right_page), vec![(key(2), vec![103, 0, 0, 0])]);
    assert_eq!(split.right_page.next_leaf_page_id(), Some(102));
}

#[test]
fn a_leaf_that_is_not_well_formed_is_rebuilt() {
    let mut page = Page::new(4);
    page.set_next_leaf_page_id(Some(77));
    for k in [b"a", b"b", b"c"] {
        page.put(k, &vec![7; 2000]).unwrap();
    }
    let off = page.read_slot(1);
    page.write_tuple(off, 1, b"b", &vec![7; 2000]);
    assert!(!page.is_ok() && page.is_readable());
    let mut leaf = LeafPage::from_page(page.clone());
    assert!(leaf.insert(b"d", &vec![8; 2000]));
    let whole = leaf.into_page();
    assert!(whole.is_ok());
    assert_eq!((whole.page_id(), whole.next_leaf_page_id()), (4, Some(77)));
    let keys: Vec<Vec<u8>> = entries(&whole).into_iter().map(|(k, _)| k).collect();
    assert_eq!(keys, vec![b"a".to_vec(), b"c".to_vec(), b"d".to_vec()]);

    let mut leaf = LeafPage::from_page(page);
    assert_eq!(leaf.remove(b"b"), Ok(Some(vec![7; 2000])));
    assert_eq!(leaf.remove(b"a"), Ok(Some(vec![7; 2000])));
    assert_eq!(entries(&leaf.into_page()), vec![(b"c".to_vec(), vec![7; 2000])]);
}
