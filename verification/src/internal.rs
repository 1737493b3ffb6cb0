//! Internal pages: separators and the children between them.
//!
//! The leftmost child is kept in the page's link. Every entry is a separator and, as four
//! bytes, the child that holds the keys from that separator on.

use vstd::prelude::*;
use vstd::slice::slice_to_vec;

use crate::byte::{read_u32, u32_at, u32_bytes, write_u32};
use crate::items::{
    build_page, items_view, lemma_page_weight, lemma_upsert_weight, lemma_weight_bound,
    lemma_weight_cut, lemma_weight_prefix, lemma_weight_step, merged_items, weight, Item,
};
use crate::layout::{
    entries, entry, has_key, lemma_page_ok, lemma_probe, lemma_rank, lemma_upsert_sorted, link,
    page_id, page_ok, probe, rank, readable, slot_count, sorted, tuple_in, tuple_reads, upsert,
    Entry, Probe, PAGE_SIZE,
};
use crate::leaf::{item_weight, items_weight};
use crate::page::{put_fits, Page};

verus! {

/// Longest separator that a page has room for.
pub const MAX_SEPARATOR: usize = 8161;

/// A separator with a child.
pub open spec fn separator_ok(e: Entry) -> bool {
    e.1.len() == 4
}

/// A well-formed page of separators and children.
pub open spec fn internal_ok(b: Seq<u8>) -> bool {
    page_ok(b) && all_separators(entries(b))
}

/// The child that holds `k` in a page of any bytes: a binary search ends behind or at a slot, and
/// the child is that of the slot in front of `k` or, in front of all slots, the leftmost one. It
/// is nothing where the search or the child's bytes run out of the page or of their tuple.
pub open spec fn child_for(b: Seq<u8>, k: Seq<u8>) -> Option<u32> {
    match probe(b, k, 0, slot_count(b) as int) {
        Probe::Found(i) => child_at(b, i + 1),
        Probe::NotFound(i) => child_at(b, i),
        Probe::Broken => None,
    }
}

/// The child behind the first `i` slots of a page of any bytes.
pub open spec fn child_at(b: Seq<u8>, i: int) -> Option<u32> {
    if i <= 0 {
        Some(link(b))
    } else if tuple_reads(b, i - 1) && entry(b, i - 1).1.len() >= 4 {
        Some(u32_at(entry(b, i - 1).1, 0))
    } else {
        None
    }
}

/// Well-formed pages of separators lead to the child between the separators around the key.
pub proof fn lemma_child_for(b: Seq<u8>, k: Seq<u8>)
    requires
        internal_ok(b),
    ensures
        child_for(b, k) == Some(child_of(link(b), entries(b), child_index(entries(b), k))),
{
    let es = entries(b);
    lemma_page_ok(b);
    lemma_rank(es, k);
    lemma_probe(b, k, 0, slot_count(b) as int);
    let i = child_index(es, k);
    if i > 0 {
        assert(tuple_in(b, i - 1));
        assert(es[i - 1] == entry(b, i - 1));
        assert(separator_ok(es[i - 1]));
    }
}

/// No separator is longer than a page has room for.
pub proof fn lemma_separator_len(b: Seq<u8>, k: Seq<u8>, v: Seq<u8>, i: int)
    requires
        internal_ok(b),
        k.len() <= MAX_SEPARATOR,
        v.len() == 4,
        0 <= i < upsert(entries(b), k, v).len(),
    ensures
        upsert(entries(b), k, v)[i].0.len() <= MAX_SEPARATOR,
{
    let es = entries(b);
    let r = rank(es, k);
    lemma_rank(es, k);
    if i != r {
        let j = if !has_key(es, k) && i > r {
            i - 1
        } else {
            i
        };
        assert(separator_ok(es[j]));
        lemma_page_weight(b);
        lemma_weight_step(es, j);
        lemma_weight_bound(es.take(j));
        lemma_weight_cut(es, j + 1);
        lemma_weight_bound(es.skip(j + 1));
    }
}

pub open spec fn all_separators(es: Seq<Entry>) -> bool {
    forall|i: int| 0 <= i < es.len() ==> #[trigger] separator_ok(es[i])
}

/// Child `i`, where `leftmost` is child zero.
pub open spec fn child_of(leftmost: u32, es: Seq<Entry>, i: int) -> u32 {
    if i <= 0 {
        leftmost
    } else {
        u32_at(es[i - 1].1, 0)
    }
}

/// Which child holds `k`: the number of separators that do not come behind it.
pub open spec fn child_index(es: Seq<Entry>, k: Seq<u8>) -> int {
    if has_key(es, k) {
        rank(es, k) + 1
    } else {
        rank(es, k)
    }
}

/// Which entry moves up when `es` is split: the first up to which the entries weigh at least
/// half of all.
pub open spec fn internal_split_point(es: Seq<Entry>, m: int) -> bool {
    &&& 0 <= m < es.len()
    &&& m == 0 || 2 * weight(es.take(m)) < weight(es)
    &&& 2 * weight(es.take(m + 1)) >= weight(es)
}

/// The entry that moves up when `es` is split.
pub open spec fn middle(es: Seq<Entry>) -> int {
    choose|m: int| internal_split_point(es, m)
}

/// Only one entry can move up.
pub proof fn lemma_middle(es: Seq<Entry>, m: int)
    requires
        internal_split_point(es, m),
    ensures
        middle(es) == m,
{
    let n = middle(es);
    assert(internal_split_point(es, n));
    if n < m {
        lemma_weight_prefix(es, n + 1, m);
    } else if m < n {
        lemma_weight_prefix(es, m + 1, n);
    }
}

/// The bytes of a child pointer hold the child.
pub proof fn lemma_child_bytes(child: u32)
    ensures
        u32_at(u32_bytes(child), 0) == child,
        u32_bytes(child).len() == 4,
{
}

/// The new right half of an internal page and the key that parts it from the left half.
pub struct InternalSplit {
    pub separator_key: Vec<u8>,
    pub right_page: Page,
}

/// What became of a separator that was to be inserted.
#[derive(Debug, Clone, Copy, PartialEq, Eq, Structural)]
pub enum Insertion {
    Done,
    PageFull,
    Duplicate,
}

/// The four bytes of a child pointer.
pub fn child_bytes(child: u32) -> (v: Vec<u8>)
    ensures
        v@ == u32_bytes(child),
{
    let mut v: Vec<u8> = vec![0u8;4];
    write_u32(&mut v, 0, child);
    assert(v@ =~= u32_bytes(child));
    v
}

/// A page used as an internal page.
pub struct InternalPage {
    page: Page,
}

impl View for InternalPage {
    type V = Seq<u8>;

    closed spec fn view(&self) -> Seq<u8> {
        self.page@
    }
}

impl InternalPage {
    pub closed spec fn percent(&self) -> u8 {
        self.page.percent()
    }

    pub fn from_page(page: Page) -> (node: InternalPage)
        ensures
            node@ == page@,
            node.percent() == page.percent(),
    {
        InternalPage { page }
    }

    /// Whether the page is a well-formed page of separators and children.
    pub fn is_internal(&self) -> (r: bool)
        ensures
            r == internal_ok(self@),
    {
        if !self.page.is_ok() {
            return false;
        }
        proof {
            lemma_page_ok(self@);
        }
        let count: usize = self.page.slot_count() as usize;
        let mut i: usize = 0;
        while i < count
            invariant
                page_ok(self@),
                readable(self@),
                self.page@ == self@,
                count == slot_count(self@),
                i <= count,
                forall|j: int| 0 <= j < i ==> #[trigger] separator_ok(entries(self@)[j]),
            decreases count - i,
        {
            assert(tuple_in(self@, i as int));
            if let Some((_, v)) = self.page.get_key_value_at_slot(i) {
                if v.len() != 4 {
                    assert(!separator_ok(entries(self@)[i as int]));
                    return false;
                }
            }
            i += 1;
        }
        true
    }

    pub fn into_page(self) -> (page: Page)
        ensures
            page@ == self@,
            page.percent() == self.percent(),
    {
        self.page
    }

    /// The child that holds keys in front of all separators.
    pub fn leftmost_child(&self) -> (id: u32)
        ensures
            id == link(self@),
    {
        match self.page.next_leaf_page_id() {
            Some(id) => id,
            None => 0,
        }
    }

    /// The child that holds `key`, or nothing where the search or the child's bytes run out of
    /// the page.
    pub fn try_child(&self, key: &[u8]) -> (r: Option<u32>)
        ensures
            r == child_for(self@, key@),
    {
        let index: usize = match self.page.slots_up_to(key) {
            Some(index) => index,
            None => {
                return None;
            },
        };
        if index == 0 {
            return Some(self.leftmost_child());
        }
        if !self.page.is_tuple_inside(index - 1) {
            return None;
        }
        let off: usize = self.page.read_slot(index - 1) as usize;
        let v: &[u8] = self.page.read_tuple_val(off);
        if v.len() < 4 {
            return None;
        }
        Some(read_u32(v, 0))
    }

    /// The child that holds `key`.
    pub fn find_child(&self, key: &[u8]) -> (id: u32)
        requires
            child_for(self@, key@) is Some,
        ensures
            child_for(self@, key@) == Some(id),
            internal_ok(self@) ==> id == child_of(
                link(self@),
                entries(self@),
                child_index(entries(self@), key@),
            ),
    {
        proof {
            if internal_ok(self@) {
                lemma_child_for(self@, key@);
            }
        }
        match self.try_child(key) {
            Some(id) => id,
            None => 0,
        }
    }

    /// Inserts a separator and the child behind it. A separator that is there already, or one
    /// for which there is no room, changes no entry.
    pub fn insert(&mut self, key: &[u8], child: u32) -> (r: Insertion)
        requires
            page_ok(old(self)@),
            key@.len() <= PAGE_SIZE,
        ensures
            page_ok(final(self)@),
            final(self).percent() == old(self).percent(),
            page_id(final(self)@) == page_id(old(self)@),
            link(final(self)@) == link(old(self)@),
            r == Insertion::Duplicate <==> has_key(entries(old(self)@), key@),
            r == Insertion::Done <==> !has_key(entries(old(self)@), key@) && put_fits(
                old(self)@,
                old(self).percent() as int,
                key@,
                u32_bytes(child),
            ),
            entries(final(self)@) == if r == Insertion::Done {
                upsert(entries(old(self)@), key@, u32_bytes(child))
            } else {
                entries(old(self)@)
            },
            internal_ok(old(self)@) ==> internal_ok(final(self)@),
    {
        let value: Vec<u8> = child_bytes(child);
        proof {
            lemma_page_ok(self@);
            lemma_rank(entries(self@), key@);
            lemma_separators_upsert(entries(self@), key@, value@);
        }
        if self.page.get(key).is_some() {
            return Insertion::Duplicate;
        }
        match self.page.put(key, value.as_slice()) {
            Ok(_) => Insertion::Done,
            Err(_) => Insertion::PageFull,
        }
    }

    /// Inserts a separator and the child behind it, and splits the page around its middle
    /// entry. The separator of that entry moves up, and its child becomes the leftmost child of
    /// the new page `right_id`.
    #[verifier::spinoff_prover]
    #[verifier::rlimit(60)]
    pub fn split(&mut self, key: &[u8], child: u32, right_id: u32) -> (s: InternalSplit)
        requires
            internal_ok(old(self)@),
            key@.len() <= MAX_SEPARATOR,
            !has_key(entries(old(self)@), key@),
        ensures
            ({
                let all = upsert(entries(old(self)@), key@, u32_bytes(child));
                let m = entries(final(self)@).len() as int;
                &&& internal_split_point(all, m)
                &&& internal_ok(final(self)@)
                &&& entries(final(self)@) == all.take(m)
                &&& page_id(final(self)@) == page_id(old(self)@)
                &&& link(final(self)@) == link(old(self)@)
                &&& internal_ok(s.right_page@)
                &&& entries(s.right_page@) == all.skip(m + 1)
                &&& page_id(s.right_page@) == right_id
                &&& link(s.right_page@) == u32_at(all[m].1, 0)
                &&& s.separator_key@ == all[m].0
                &&& s.separator_key@.len() <= MAX_SEPARATOR
                &&& final(self).percent() == 75
                &&& s.right_page.percent() == 75
            }),
    {
        let value: Vec<u8> = child_bytes(child);
        proof {
            lemma_page_ok(self@);
        }
        let items: Vec<Item> = merged_items(&self.page, key, value.as_slice());
        let ghost es = items_view(items@);
        proof {
            lemma_rank(entries(self@), key@);
            lemma_upsert_sorted(entries(self@), key@, value@);
            lemma_separators_upsert(entries(self@), key@, value@);
            lemma_upsert_weight(entries(self@), key@, value@);
            lemma_page_weight(self@);
            assert(es.take(0) =~= Seq::<Entry>::empty());
        }
        let count: usize = items.len();
        let total: usize = items_weight(&items);
        let mut m: usize = 0;
        let mut left: usize = 0;
        proof {
            lemma_weight_step(es, 0);
            lemma_weight_cut(es, 1);
            lemma_weight_bound(es.skip(1));
        }
        left = item_weight(&items[0]);
        while 2 * left < total
            invariant
                es == items_view(items@),
                all_separators(es),
                count == items@.len(),
                m < count,
                total == weight(es),
                total <= 16344,
                left == weight(es.take(m + 1)),
                left <= total,
                m == 0 || 2 * weight(es.take(m as int)) < total,
            decreases count - m,
        {
            proof {
                if m == count - 1 {
                    assert(es.take(m + 1) =~= es);
                    lemma_weight_bound(es);
                }
                lemma_weight_step(es, m + 1);
                lemma_weight_cut(es, m + 2);
                lemma_weight_bound(es.skip(m + 2));
            }
            m += 1;
            left += item_weight(&items[m]);
        }
        proof {
            lemma_weight_cut(es, m as int);
            lemma_weight_cut(es, m + 1);
            lemma_weight_step(es, m as int);
            assert(es.subrange(0, m as int) =~= es.take(m as int));
            assert(es.subrange(m + 1, count as int) =~= es.skip(m + 1));
            assert(separator_ok(es[m as int]));
            lemma_separator_len(self@, key@, value@, m as int);
        }
        let id: u32 = self.page.page_id();
        let next: Option<u32> = self.page.next_leaf_page_id();
        let middle: u32 = read_u32(items[m].1.as_slice(), 0);
        let right_page: Page = build_page(right_id, Some(middle), &items, m + 1, count);
        let separator_key: Vec<u8> = slice_to_vec(items[m].0.as_slice());
        self.page = build_page(id, next, &items, 0, m);
        proof {
            assert forall|i: int| 0 <= i < entries(self@).len() implies #[trigger] separator_ok(
                entries(self@)[i],
            ) by {
                assert(separator_ok(es[i]));
            }
            assert forall|i: int|
                0 <= i < entries(right_page@).len() implies #[trigger] separator_ok(
                entries(right_page@)[i],
            ) by {
                assert(separator_ok(es[m + 1 + i]));
            }
        }
        InternalSplit { separator_key, right_page }
    }

    /// A page with two children, parted by `key`.
    pub fn new_root(id: u32, left: u32, key: &[u8], right: u32) -> (node: InternalPage)
        requires
            key@.len() <= MAX_SEPARATOR,
        ensures
            internal_ok(node@),
            page_id(node@) == id,
            link(node@) == left,
            entries(node@) == seq![(key@, u32_bytes(right))],
            node.percent() == 75,
    {
        let value: Vec<u8> = child_bytes(right);
        let mut page = Page::new(id);
        page.set_next_leaf_page_id(Some(left));
        page.append_entry(key, value.as_slice());
        assert(entries(page@) =~= seq![(key@, u32_bytes(right))]);
        InternalPage { page }
    }
}

pub proof fn lemma_separators_upsert(es: Seq<Entry>, k: Seq<u8>, v: Seq<u8>)
    requires
        sorted(es),
        v.len() == 4,
    ensures
        all_separators(es) ==> all_separators(upsert(es, k, v)),
{
    lemma_rank(es, k);
    let r = rank(es, k);
    let n = upsert(es, k, v);
    if all_separators(es) {
        assert forall|i: int| 0 <= i < n.len() implies #[trigger] separator_ok(n[i]) by {
            if i != r {
                let j = if !has_key(es, k) && i > r {
                    i - 1
                } else {
                    i
                };
                assert(separator_ok(es[j]));
            }
        }
    }
}

} // verus!
