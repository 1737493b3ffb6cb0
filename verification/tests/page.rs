//! Slotted pages.

use btree::layout::{HEADER_SIZE, PAGE_MAGIC, PAGE_SIZE};
use btree::page::Page;

fn keys(page: &Page) -> Vec<Vec<u8>> {
    (0..page.slot_count() as usize)
        .map(|i| page.get_key_value_at_slot(i).unwrap().0.to_vec())
        .collect()
}

#[test]
fn a_new_page_is_empty() {
    let page = Page::new(7);
    assert_eq!(page.page_id(), 7);
    assert_eq!(page.slot_count(), 0);
    assert_eq!(page.free_start() as usize, HEADER_SIZE);
    assert_eq!(page.free_end() as usize, PAGE_SIZE);
    assert_eq!(page.free_space_bytes(), 8172);
    assert_eq!(page.dead_tuple_bytes(), 0);
    assert_eq!(page.next_leaf_page_id(), None);
    assert_eq!(page.as_bytes()[..4], PAGE_MAGIC.to_le_bytes());
    assert_eq!(page.as_bytes()[..4], *b"TUNP");
    assert!(page.is_ok());
    assert_eq!(page.get(b"a"), None);
    assert_eq!(page.get_key_value_at_slot(0), None);
}

#[test]
fn put_writes_a_tuple_at_the_end_of_the_free_space() {
    let mut page = Page::new(1);
    assert_eq!(page.put(b"a", b"1"), Ok(None));
    assert_eq!(page.free_start(), 22);
    assert_eq!(page.free_end(), 8185);
    assert_eq!(page.read_slot(0), 8185);
    assert_eq!(page.as_bytes()[8185..], [0, 1, 0, 1, 0, b'a', b'1']);
    assert_eq!(page.read_tuple_tombstone(8185), 0);
    assert_eq!(page.read_tuple_key_len(8185), 1);
    assert_eq!(page.read_tuple_val_len(8185), 1);
    assert_eq!(page.read_key(8185), b"a");
    assert_eq!(page.read_tuple_val(8185), b"1");
    assert_eq!(Page::tuple_len(1, 1), 7);
    assert_eq!(page.get(b"a"), Some(&b"1"[..]));
}

#[test]
fn entries_are_kept_in_key_order() {
    let mut page = Page::new(1);
    for k in [&b"m"[..], b"a", b"z", b"", b"ab", b"b"] {
        assert_eq!(page.put(k, b"v"), Ok(None));
    }
    let expected: Vec<Vec<u8>> =
        [&b""[..], b"a", b"ab", b"b", b"m", b"z"].iter().map(|k| k.to_vec()).collect();
    assert_eq!(keys(&page), expected);
    assert_eq!(page.slots_up_to(b"ab"), Some(3));
    assert_eq!(page.slots_up_to(b"ac"), Some(3));
    assert_eq!(page.slots_up_to(b"zz"), Some(6));
    assert!(page.is_ok());
}

#[test]
fn an_overwritten_tuple_is_dead_until_enough_bytes_are() {
    let mut page = Page::new(1);
    assert_eq!(page.put(b"a", b"1"), Ok(None));
    assert_eq!(page.put(b"a", b"22"), Ok(Some(b"1".to_vec())));
    assert_eq!((page.free_end(), page.dead_tuple_bytes()), (8177, 7));
    assert_eq!(page.put(b"a", b"3"), Ok(Some(b"22".to_vec())));
    assert_eq!((page.free_end(), page.dead_tuple_bytes()), (8170, 15));
    // 22 dead bytes of 29 are at least 75 percent: only the live tuple stays.
    assert_eq!(page.put(b"a", b"4"), Ok(Some(b"3".to_vec())));
    assert_eq!((page.free_end(), page.dead_tuple_bytes()), (8185, 0));
    assert_eq!(page.get(b"a"), Some(&b"4"[..]));
    assert_eq!(page.slot_count(), 1);
}

#[test]
fn the_share_of_dead_bytes_is_clamped() {
    let mut page = Page::new(1);
    page.set_dead_tuple_compact_percent(0);
    page.put(b"a", b"1").unwrap();
    page.put(b"b", b"1").unwrap();
    // One percent: any dead byte is enough.
    assert_eq!(page.put(b"a", b"2"), Ok(Some(b"1".to_vec())));
    assert_eq!((page.free_end(), page.dead_tuple_bytes()), (8178, 0));
    page.set_dead_tuple_compact_percent(200);
    // All bytes of the region would have to be dead.
    assert_eq!(page.put(b"a", b"3"), Ok(Some(b"2".to_vec())));
    assert_eq!((page.free_end(), page.dead_tuple_bytes()), (8171, 7));
}

#[test]
fn remove_closes_the_gap_in_the_slots() {
    let mut page = Page::new(1);
    for k in [b"a", b"b", b"c"] {
        page.put(k, b"v").unwrap();
    }
    assert_eq!(page.remove(b"b"), Some(b"v".to_vec()));
    assert_eq!(page.remove(b"b"), None);
    assert_eq!(keys(&page), vec![b"a".to_vec(), b"c".to_vec()]);
    assert_eq!(page.free_start(), 24);
    assert_eq!((page.free_end(), page.dead_tuple_bytes()), (8171, 7));
    assert_eq!(page.remove(b"a"), Some(b"v".to_vec()));
    assert_eq!(page.remove(b"c"), Some(b"v".to_vec()));
    assert_eq!((page.free_end(), page.dead_tuple_bytes()), (8192, 0));
    assert_eq!(page.slot_count(), 0);
}

#[test]
fn a_full_page_refuses_more() {
    let mut page = Page::new(1);
    assert_eq!(page.put(b"k", &vec![7u8; 8165]), Err("page full"));
    assert_eq!(page.put(b"k", &vec![7u8; 8164]), Ok(None));
    assert_eq!(page.free_space_bytes(), 0);
    assert_eq!(page.put(b"l", b""), Err("page full"));
    assert_eq!(page.alloc_slot(), Err("no space for slot"));
    assert_eq!(page.alloc_tuple(1), Err("no space for tuple"));
    assert_eq!(page.alloc_tuple(0), Ok(22));
    assert_eq!(page.get(b"k"), Some(&vec![7u8; 8164][..]));
}

#[test]
fn dead_tuples_make_room() {
    let mut page = Page::new(1);
    page.put(b"a", &vec![1u8; 2000]).unwrap();
    page.put(b"a", &vec![2u8; 2000]).unwrap();
    page.put(b"a", &vec![3u8; 2000]).unwrap();
    assert_eq!(page.dead_tuple_bytes(), 4012);
    // The fourth tuple brings the dead bytes to 75 percent of the region.
    page.put(b"a", &vec![4u8; 2000]).unwrap();
    assert_eq!(page.dead_tuple_bytes(), 0);
    assert_eq!(page.free_end() as usize, PAGE_SIZE - 2006);
    assert_eq!(page.get(b"a"), Some(&vec![4u8; 2000][..]));
}

#[test]
fn slots_and_tuples_can_be_taken_one_by_one() {
    let mut page = Page::new(1);
    assert_eq!(page.alloc_tuple(10), Ok(8182));
    assert_eq!(page.alloc_slot(), Ok(0));
    page.write_tuple(8182, 0, b"key", b"va");
    page.write_slot(0, 8182);
    assert_eq!(page.get(b"key"), Some(&b"va"[..]));
    assert_eq!(page.get_key_value_at_slot(0), Some((&b"key"[..], &b"va"[..])));
    assert_eq!(page.free_start(), 22);
}

#[test]
fn a_page_survives_its_bytes() {
    let mut page = Page::new(3);
    page.put(b"a", b"1").unwrap();
    page.set_next_leaf_page_id(Some(9));
    let mut bytes = page.as_bytes().to_vec();
    bytes.extend_from_slice(b"behind");
    let copy = Page::from_bytes(&bytes);
    assert_eq!(copy.as_bytes(), page.as_bytes());
    assert_eq!(copy.next_leaf_page_id(), Some(9));
    assert!(copy.is_ok());
    page.set_next_leaf_page_id(None);
    assert_eq!(page.next_leaf_page_id(), None);
    assert_eq!(copy.clone().as_bytes(), copy.as_bytes());
}

#[test]
fn damaged_bytes_are_noticed() {
    assert!(!Page::from_bytes(&vec![0u8; PAGE_SIZE]).is_ok());
    let mut page = Page::new(3);
    page.put(b"a", b"1").unwrap();
    page.put(b"b", b"2").unwrap();
    let good = page.as_bytes().to_vec();
    assert!(Page::from_bytes(&good).is_ok());
    // Two slots in the wrong order.
    let mut swapped = good.clone();
    swapped[20..22].copy_from_slice(&good[22..24]);
    swapped[22..24].copy_from_slice(&good[20..22]);
    assert!(!Page::from_bytes(&swapped).is_ok());
    // A tuple that runs over the end of the page.
    let mut long = good.clone();
    long[8188] = 255;
    assert!(!Page::from_bytes(&long).is_ok());
}

#[test]
fn a_tuple_that_is_marked_as_dead_is_not_seen() {
    let mut page = Page::new(1);
    page.put(b"a", b"1").unwrap();
    page.put(b"b", b"2").unwrap();
    let off = page.read_slot(0);
    page.write_tuple(off, 1, b"a", b"1");
    assert!(!page.is_ok());
    assert_eq!(page.get(b"a"), None);
    assert_eq!(page.get_key_value_at_slot(0), None);
    assert_eq!(page.get(b"b"), Some(&b"2"[..]));
    assert_eq!(page.get_key_value_at_slot(1), Some((&b"b"[..], &b"2"[..])));
    assert_eq!(page.slots_up_to(b"b"), Some(2));

    let mut page = Page::new(1);
    assert_eq!(page.alloc_tuple(7), Ok(8185));
    page.write_tuple(8185, 1, b"a", b"1");
    assert_eq!(page.alloc_slot(), Ok(0));
    page.write_slot(0, 8185);
    assert_eq!(page.get(b"a"), None);
    assert_eq!(page.get_key_value_at_slot(0), None);
    assert_eq!(page.read_key(8185), b"a");
}

#[test]
fn a_refused_put_leaves_the_bytes() {
    let mut page = Page::new(1);
    assert_eq!(page.put(b"k", &[0; 8165]), Err("page full"));
    assert_eq!(page.as_bytes(), Page::new(1).as_bytes());
    page.put(b"a", &vec![1; 4000]).unwrap();
    page.put(b"b", &vec![2; 2000]).unwrap();
    page.put(b"b", &vec![3; 1000]).unwrap();
    assert_eq!(page.dead_tuple_bytes(), 2006);
    let before = page.as_bytes().to_vec();
    assert_eq!(page.put(b"c", &vec![4; 2000]), Err("page full"));
    assert_eq!(page.put(b"a", &vec![4; 4000]), Err("page full"));
    assert_eq!(page.as_bytes().to_vec(), before);
    // Where a compaction is due, it is made, and the entries stay.
    page.set_dead_tuple_compact_percent(1);
    assert_eq!(page.put(b"c", &vec![4; 4000]), Err("page full"));
    assert_eq!((page.free_end() as usize, page.dead_tuple_bytes()), (PAGE_SIZE - 5012, 0));
    assert_eq!(page.get(b"a"), Some(&vec![1; 4000][..]));
    assert_eq!(page.get(b"b"), Some(&vec![3; 1000][..]));
}

#[test]
fn every_byte_is_accounted_for() {
    let mut page = Page::new(1);
    let total = |page: &Page| {
        let live: usize = (0..page.slot_count() as usize)
            .map(|i| {
                let (k, v) = page.get_key_value_at_slot(i).unwrap();
                Page::tuple_len(k.len(), v.len())
            })
            .sum();
        page.free_start() as usize
            + page.free_space_bytes()
            + live
            + page.dead_tuple_bytes() as usize
    };
    for i in 0..50u8 {
        page.put(&[i], &vec![i; i as usize]).unwrap();
        assert_eq!(total(&page), PAGE_SIZE);
    }
    for i in 0..50u8 {
        page.put(&[i], &vec![i; 60 - i as usize]).unwrap();
        assert_eq!(total(&page), PAGE_SIZE);
        assert_eq!(page.free_start() as usize, HEADER_SIZE + 100);
    }
    for i in 0..50u8 {
        page.remove(&[i]).unwrap();
        assert_eq!(total(&page), PAGE_SIZE);
    }
}

#[test]
fn a_removal_undoes_a_put_of_an_absent_key() {
    let mut page = Page::new(1);
    page.put(b"a", b"1").unwrap();
    page.put(b"c", b"3").unwrap();
    assert_eq!(page.put(b"b", b"2"), Ok(None));
    assert_eq!(page.remove(b"b"), Some(b"2".to_vec()));
    assert_eq!(keys(&page), vec![b"a".to_vec(), b"c".to_vec()]);
    assert_eq!(page.get(b"a"), Some(&b"1"[..]));
    assert_eq!(page.get(b"c"), Some(&b"3"[..]));
}

#[test]
fn compaction_frees_exactly_the_dead_bytes() {
    let mut page = Page::new(5);
    page.set_next_leaf_page_id(Some(8));
    page.set_dead_tuple_compact_percent(100);
    page.put(b"a", b"1").unwrap();
    page.put(b"b", &vec![2; 100]).unwrap();
    page.put(b"b", b"2").unwrap();
    assert_eq!(page.dead_tuple_bytes(), 106);
    page.put(b"c", b"3").unwrap();
    let free = page.free_space_bytes();
    page.set_dead_tuple_compact_percent(1);
    // The tuple of the removed key is dead too.
    assert_eq!(page.remove(b"c"), Some(b"3".to_vec()));
    assert_eq!(page.dead_tuple_bytes(), 0);
    assert_eq!(page.free_space_bytes(), free + 106 + 7 + 2);
    assert_eq!(keys(&page), vec![b"a".to_vec(), b"b".to_vec()]);
    assert_eq!((page.page_id(), page.next_leaf_page_id()), (5, Some(8)));
}

#[test]
fn single_slots_and_lookups_are_read_on_their_own() {
    let mut page = Page::new(1);
    for k in [b"a", b"b", b"c"] {
        page.put(k, b"v").unwrap();
    }
    page.write_slot(2, 9000);
    assert!(!page.is_readable());
    assert!(page.can_read_slot(0) && page.can_read_slot(1) && page.can_read_slot(3));
    assert!(!page.can_read_slot(2));
    assert_eq!(page.get_key_value_at_slot(0), Some((&b"a"[..], &b"v"[..])));
    assert_eq!(page.get_key_value_at_slot(3), None);
    assert_eq!(page.get(b"a"), Some(&b"v"[..]));
    assert_eq!(page.read(b"b"), Some(Some(&b"v"[..])));
    assert_eq!(page.read(b"aa"), Some(None));
    assert_eq!(page.read(b"c"), None);
    assert_eq!(page.read_stored(b"c"), None);
}
