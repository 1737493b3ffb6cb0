//! Leaf pages: the entries of the tree.

use vstd::prelude::*;
use vstd::slice::slice_to_vec;

use crate::error::Fault;
use crate::items::{
    build_page, fits_page, items_view, lemma_page_weight, lemma_upsert_weight, lemma_weight_bound,
    lemma_weight_cut, lemma_weight_prefix, lemma_weight_step, live_items, merged_items,
    other_items, page_capacity, weight, Item,
};
use crate::layout::{
    entries, entry_size, has_key, lemma_entries_size_remove, lemma_live_to, lemma_page_ok,
    lemma_rank, lemma_remove_sorted, lemma_upsert_sorted, link, live, lookup, page_id, page_ok,
    rank, readable, slot_count, sorted, stored, upsert, without, Entry, SLOT_SIZE,
};
use crate::page::{put_fits, Page};

verus! {

/// Bytes that an entry of a leaf takes beyond its key and value: slot and tuple header.
pub const LEAF_ENTRY_OVERHEAD: usize = 7;

/// Most bytes that one entry may take.
pub const MAX_ENTRY: usize = 2048;

/// Longest key.
pub const MAX_KEY: usize = 1024;

/// An entry that the tree accepts.
pub open spec fn entry_fits(k: Seq<u8>, v: Seq<u8>) -> bool {
    k.len() <= MAX_KEY && LEAF_ENTRY_OVERHEAD + k.len() + v.len() <= MAX_ENTRY
}

/// The tree accepts an entry exactly where its key has at most 1024 bytes, and its key and value
/// together with the seven bytes of slot and tuple header have at most 2048, a quarter of a page.
pub proof fn law_accepted_sizes(k: Seq<u8>, v: Seq<u8>)
    ensures
        entry_fits(k, v) <==> k.len() <= 1024 && 7 + k.len() + v.len() <= 2048,
{
}

/// A well-formed page of entries that the tree accepts.
pub open spec fn leaf_ok(b: Seq<u8>) -> bool {
    &&& page_ok(b)
    &&& forall|i: int|
        0 <= i < entries(b).len() ==> #[trigger] entry_fits(entries(b)[i].0, entries(b)[i].1)
}

/// All of these entries are such that the tree accepts them.
pub open spec fn all_fit(es: Seq<Entry>) -> bool {
    forall|i: int| 0 <= i < es.len() ==> #[trigger] entry_fits(es[i].0, es[i].1)
}

/// The live entries of the page fit in a page of their own.
pub open spec fn mendable(b: Seq<u8>) -> bool {
    readable(b) && weight(live(b)) <= page_capacity()
}

/// The live entries of the page fit in a page of their own, and the tree accepts them.
pub open spec fn splittable(b: Seq<u8>) -> bool {
    mendable(b) && all_fit(live(b))
}

/// The page can take `v` under `k` without a split: it has room, or its live entries with the
/// new one fit in a page of their own. A well-formed page is rebuilt only for its one entry.
pub open spec fn takes(b: Seq<u8>, percent: int, k: Seq<u8>, v: Seq<u8>) -> bool {
    if page_ok(b) {
        put_fits(b, percent, k, v) || upsert(entries(b), k, v).len() < 2
    } else {
        readable(b) && weight(upsert(live(b), k, v)) <= page_capacity()
    }
}

/// What a removal of `k` gives: the value that its slot refers to, or the reason why the page
/// cannot be read there or written again.
pub open spec fn removal(b: Seq<u8>, k: Seq<u8>) -> core::result::Result<Option<Seq<u8>>, Fault> {
    match stored(b, k) {
        None => Err(Fault::BadPage),
        Some(None) => Ok(None),
        Some(Some(v)) => if mendable(b) {
            Ok(Some(v))
        } else {
            Err(Fault::BadLeafPage)
        },
    }
}

/// Well-formed pages can be split where all their entries are accepted, and keys removed.
pub proof fn lemma_leaf(b: Seq<u8>)
    requires
        page_ok(b),
    ensures
        mendable(b),
        splittable(b) == leaf_ok(b),
        forall|k: Seq<u8>| #[trigger] removal(b, k) == Ok::<_, Fault>(lookup(entries(b), k)),
{
    lemma_page_ok(b);
    lemma_page_weight(b);
    assert forall|k: Seq<u8>| #[trigger] removal(b, k) == Ok::<_, Fault>(lookup(entries(b), k)) by {
        assert(stored(b, k) == Some(lookup(entries(b), k)));
    }
}

/// How many entries stay on the left when `es` is split: the fewest that weigh at least half
/// of all, but not all of them.
pub open spec fn leaf_split_point(es: Seq<Entry>, m: int) -> bool {
    &&& 1 <= m < es.len()
    &&& m == 1 || 2 * weight(es.take(m - 1)) < weight(es)
    &&& 2 * weight(es.take(m)) >= weight(es) || m == es.len() - 1
}

/// How many entries stay on the left when `es` is split.
pub open spec fn leaf_middle(es: Seq<Entry>) -> int {
    choose|m: int| leaf_split_point(es, m)
}

/// Only one number of entries can stay on the left.
pub proof fn lemma_leaf_middle(es: Seq<Entry>, m: int)
    requires
        leaf_split_point(es, m),
    ensures
        leaf_middle(es) == m,
{
    let n = leaf_middle(es);
    assert(leaf_split_point(es, n));
    if n < m {
        lemma_weight_prefix(es, n, m - 1);
    } else if m < n {
        lemma_weight_prefix(es, m, n - 1);
    }
}

/// The new right half of a leaf and the key that parts it from the left half.
pub struct LeafSplit {
    pub separator_key: Vec<u8>,
    pub right_page: Page,
}

/// A page used as a leaf.
pub struct LeafPage {
    page: Page,
}

impl View for LeafPage {
    type V = Seq<u8>;

    closed spec fn view(&self) -> Seq<u8> {
        self.page@
    }
}

impl LeafPage {
    pub fn from_page(page: Page) -> (leaf: LeafPage)
        ensures
            leaf@ == page@,
            leaf.percent() == page.percent(),
    {
        LeafPage { page }
    }

    pub fn into_page(self) -> (page: Page)
        ensures
            page@ == self@,
            page.percent() == self.percent(),
    {
        self.page
    }

    pub closed spec fn percent(&self) -> u8 {
        self.page.percent()
    }

    /// Whether the live entries fit in a page of their own, and the tree accepts them.
    pub fn is_splittable(&self) -> (r: bool)
        requires
            readable(self@),
        ensures
            r == splittable(self@),
    {
        let items: Vec<Item> = live_items(&self.page);
        let ghost es = items_view(items@);
        if !fits_page(&items) {
            return false;
        }
        let mut i: usize = 0;
        while i < items.len()
            invariant
                es == items_view(items@),
                es == live(self@),
                i <= items@.len(),
                forall|j: int| 0 <= j < i ==> #[trigger] entry_fits(es[j].0, es[j].1),
            decreases items@.len() - i,
        {
            let k: usize = items[i].0.len();
            let v: usize = items[i].1.len();
            assert(es[i as int] == (items@[i as int].0@, items@[i as int].1@));
            if k > MAX_KEY || v > MAX_ENTRY - LEAF_ENTRY_OVERHEAD - k {
                assert(!entry_fits(es[i as int].0, es[i as int].1));
                return false;
            }
            i += 1;
        }
        true
    }

    /// Puts `value` under `key` if the page can take it. A page whose only entry is replaced
    /// is rebuilt when its dead tuples leave no room, and so is a page that can be read but is
    /// not well formed. Returns false, with the live entries as they were, when the page has to
    /// be split.
    #[verifier::spinoff_prover]
    #[verifier::rlimit(60)]
    pub fn insert(&mut self, key: &[u8], value: &[u8]) -> (done: bool)
        requires
            readable(old(self)@),
            entry_fits(key@, value@),
        ensures
            readable(final(self)@),
            final(self).percent() == if !done || page_ok(old(self)@) && put_fits(
                old(self)@,
                old(self).percent() as int,
                key@,
                value@,
            ) {
                old(self).percent()
            } else {
                75
            },
            page_id(final(self)@) == page_id(old(self)@),
            link(final(self)@) == link(old(self)@),
            done <==> takes(old(self)@, old(self).percent() as int, key@, value@),
            done || page_ok(old(self)@) ==> page_ok(final(self)@),
            !done && !page_ok(old(self)@) ==> final(self)@ == old(self)@,
            live(final(self)@) == if done {
                upsert(live(old(self)@), key@, value@)
            } else {
                live(old(self)@)
            },
            done ==> entries(final(self)@) == upsert(live(old(self)@), key@, value@),
            !done ==> upsert(live(old(self)@), key@, value@).len() >= 2,
            splittable(old(self)@) ==> splittable(final(self)@),
            leaf_ok(old(self)@) ==> leaf_ok(final(self)@),
    {
        let ghost b = self@;
        let ghost es0 = live(b);
        proof {
            lemma_live_to(b, slot_count(b) as int);
            lemma_rank(es0, key@);
            lemma_upsert_sorted(es0, key@, value@);
            lemma_fit_upsert(es0, key@, value@);
        }
        let ok: bool = self.page.is_ok();
        if ok {
            proof {
                lemma_page_ok(b);
                lemma_leaf(b);
            }
            let put: bool = match self.page.put(key, value) {
                Ok(_) => true,
                Err(_) => false,
            };
            proof {
                lemma_page_ok(self@);
                lemma_leaf(self@);
            }
            if put {
                return true;
            }
        }
        let items: Vec<Item> = merged_items(&self.page, key, value);
        let ghost es = items_view(items@);
        proof {
            if es.len() < 2 {
                assert(es.len() == 1);
                assert(es[0] == (key@, value@)) by {
                    let r = rank(es0, key@);
                    assert(es[r] == (key@, value@));
                }
                assert(es.drop_last() =~= Seq::<Entry>::empty());
                reveal_with_fuel(crate::layout::entries_size, 2);
            }
        }
        let whole: bool = if ok {
            items.len() < 2
        } else {
            fits_page(&items)
        };
        if !whole {
            return false;
        }
        let id: u32 = self.page.page_id();
        let next: Option<u32> = self.page.next_leaf_page_id();
        let count: usize = items.len();
        assert(es.subrange(0, count as int) =~= es);
        self.page = build_page(id, next, &items, 0, count);
        proof {
            lemma_page_ok(self@);
            lemma_leaf(self@);
        }
        true
    }

    /// Puts `value` under `key` and moves the upper half of the entries to a new page `right_id`,
    /// which takes its place between this leaf and the next. Returns `None`, without effect,
    /// when the page holds an entry that the tree does not accept, or more than fits in a page.
    #[verifier::spinoff_prover]
    #[verifier::rlimit(60)]
    pub fn split(&mut self, key: &[u8], value: &[u8], right_id: u32) -> (r: Option<LeafSplit>)
        requires
            readable(old(self)@),
            entry_fits(key@, value@),
            upsert(live(old(self)@), key@, value@).len() >= 2,
        ensures
            r is Some <==> splittable(old(self)@),
            match r {
                Some(s) => {
                    let all = upsert(live(old(self)@), key@, value@);
                    let m = entries(final(self)@).len() as int;
                    &&& leaf_split_point(all, m)
                    &&& leaf_ok(final(self)@)
                    &&& entries(final(self)@) == all.take(m)
                    &&& page_id(final(self)@) == page_id(old(self)@)
                    &&& link(final(self)@) == right_id
                    &&& leaf_ok(s.right_page@)
                    &&& entries(s.right_page@) == all.skip(m)
                    &&& page_id(s.right_page@) == right_id
                    &&& link(s.right_page@) == link(old(self)@)
                    &&& s.separator_key@ == all[m].0
                    &&& final(self).percent() == 75
                    &&& s.right_page.percent() == 75
                },
                None => final(self)@ == old(self)@ && final(self).percent()
                    == old(self).percent(),
            },
    {
        if !self.is_splittable() {
            return None;
        }
        let items: Vec<Item> = merged_items(&self.page, key, value);
        let ghost es = items_view(items@);
        proof {
            let b = self@;
            lemma_live_to(b, slot_count(b) as int);
            lemma_upsert_sorted(live(b), key@, value@);
            lemma_fit_upsert(live(b), key@, value@);
            lemma_upsert_weight(live(b), key@, value@);
        }
        let count: usize = items.len();
        let total: usize = items_weight(&items);
        proof {
            assert(es.take(0) =~= Seq::<Entry>::empty());
            assert(entry_fits(es[0].0, es[0].1));
            lemma_weight_step(es, 0);
            lemma_weight_cut(es, 1);
            lemma_weight_bound(es.skip(1));
        }
        let mut left: usize = item_weight(&items[0]);
        let mut m: usize = 1;
        while m < count - 1 && 2 * left < total
            invariant
                es == items_view(items@),
                all_fit(es),
                count == items@.len(),
                1 <= m < count,
                total == weight(es),
                total <= 10220,
                left == weight(es.take(m as int)),
                left <= total,
                m == 1 || 2 * weight(es.take(m - 1)) < total,
            decreases count - m,
        {
            proof {
                lemma_weight_step(es, m as int);
                lemma_weight_cut(es, m + 1);
                lemma_weight_bound(es.skip(m + 1));
                assert(entry_fits(es[m as int].0, es[m as int].1));
            }
            left += item_weight(&items[m]);
            m += 1;
        }
        proof {
            lemma_weight_cut(es, m as int);
            lemma_weight_step(es, m - 1);
            assert(entry_fits(es[m - 1].0, es[m - 1].1));
            assert(es.subrange(0, m as int) =~= es.take(m as int));
            assert(es.subrange(m as int, count as int) =~= es.skip(m as int));
            if m == count - 1 {
                assert(es.skip(m as int).drop_last() =~= Seq::<Entry>::empty());
                assert(entry_fits(es[m as int].0, es[m as int].1));
                reveal_with_fuel(crate::layout::entries_size, 2);
            }
            if m == 1 {
                assert(es.take(0) =~= Seq::<Entry>::empty());
            }
        }
        let id: u32 = self.page.page_id();
        let next: Option<u32> = self.page.next_leaf_page_id();
        let right_page: Page = build_page(right_id, next, &items, m, count);
        let separator_key: Vec<u8> = slice_to_vec(items[m].0.as_slice());
        self.page = build_page(id, Some(right_id), &items, 0, m);
        proof {
            assert forall|i: int| 0 <= i < entries(self@).len() implies #[trigger] entry_fits(
                entries(self@)[i].0,
                entries(self@)[i].1,
            ) by {
                assert(entry_fits(es[i].0, es[i].1));
            }
            assert forall|i: int|
                0 <= i < entries(right_page@).len() implies #[trigger] entry_fits(
                entries(right_page@)[i].0,
                entries(right_page@)[i].1,
            ) by {
                assert(entry_fits(es[m + i].0, es[m + i].1));
            }
        }
        Some(LeafSplit { separator_key, right_page })
    }

    /// Removes `key` and returns the value that its slot refers to. A page that can be read but
    /// is not well formed is rebuilt. Fails, without effect, where the page cannot be read as
    /// far as the search goes, or not be rebuilt.
    #[verifier::spinoff_prover]
    #[verifier::rlimit(60)]
    pub fn remove(&mut self, key: &[u8]) -> (r: core::result::Result<Option<Vec<u8>>, Fault>)
        ensures
            removal(old(self)@, key@) == match r {
                Ok(Some(v)) => Ok(Some(v@)),
                Ok(None) => Ok(None),
                Err(f) => Err(f),
            },
            match r {
                Ok(Some(_)) => {
                    &&& page_ok(final(self)@)
                    &&& entries(final(self)@) == without(live(old(self)@), key@)
                    &&& page_id(final(self)@) == page_id(old(self)@)
                    &&& link(final(self)@) == link(old(self)@)
                    &&& final(self).percent() == if page_ok(old(self)@) {
                        old(self).percent()
                    } else {
                        75
                    }
                },
                _ => *final(self) == *old(self),
            },
            leaf_ok(old(self)@) ==> leaf_ok(final(self)@) && entries(final(self)@) == without(
                entries(old(self)@),
                key@,
            ),
    {
        let ghost b = self@;
        let old_value: Vec<u8> = match self.page.read_stored(key) {
            None => {
                proof {
                    if page_ok(b) {
                        lemma_page_ok(b);
                    }
                }
                return Err(Fault::BadPage);
            },
            Some(None) => {
                proof {
                    if page_ok(b) {
                        lemma_page_ok(b);
                        assert(lookup(entries(b), key@) is None);
                    }
                }
                return Ok(None);
            },
            Some(Some(v)) => slice_to_vec(v),
        };
        if self.page.is_ok() {
            proof {
                lemma_page_ok(b);
                lemma_leaf(b);
            }
            let _ = self.page.remove(key);
            proof {
                lemma_fit_without(entries(b), key@);
            }
            return Ok(Some(old_value));
        }
        if !self.page.is_readable() || !fits_page(&live_items(&self.page)) {
            return Err(Fault::BadLeafPage);
        }
        let (items, _): (Vec<Item>, usize) = other_items(&self.page, key);
        let ghost es = items_view(items@);
        proof {
            lemma_live_to(b, slot_count(b) as int);
            lemma_rank(live(b), key@);
            lemma_without_weight(live(b), key@);
        }
        let id: u32 = self.page.page_id();
        let next: Option<u32> = self.page.next_leaf_page_id();
        let count: usize = items.len();
        assert(es.subrange(0, count as int) =~= es);
        self.page = build_page(id, next, &items, 0, count);
        Ok(Some(old_value))
    }
}

/// Without a key entries weigh no more, and are sorted.
proof fn lemma_without_weight(es: Seq<Entry>, k: Seq<u8>)
    requires
        sorted(es),
    ensures
        weight(without(es, k)) <= weight(es),
        sorted(without(es, k)),
{
    lemma_rank(es, k);
    if has_key(es, k) {
        lemma_entries_size_remove(es, rank(es, k));
        lemma_remove_sorted(es, rank(es, k));
    }
}

/// Without a key entries are still accepted.
proof fn lemma_fit_without(es: Seq<Entry>, k: Seq<u8>)
    requires
        sorted(es),
    ensures
        all_fit(es) ==> all_fit(without(es, k)),
{
    lemma_rank(es, k);
    let n = without(es, k);
    let p = rank(es, k);
    if all_fit(es) {
        assert forall|i: int| 0 <= i < n.len() implies #[trigger] entry_fits(n[i].0, n[i].1) by {
            let j = if has_key(es, k) && i >= p {
                i + 1
            } else {
                i
            };
            assert(entry_fits(es[j].0, es[j].1));
        }
    }
}

pub proof fn lemma_fit_upsert(es: Seq<Entry>, k: Seq<u8>, v: Seq<u8>)
    requires
        sorted(es),
        entry_fits(k, v),
    ensures
        all_fit(es) ==> all_fit(upsert(es, k, v)),
{
    lemma_rank(es, k);
    let r = rank(es, k);
    let n = upsert(es, k, v);
    if all_fit(es) {
        assert forall|i: int| 0 <= i < n.len() implies #[trigger] entry_fits(n[i].0, n[i].1) by {
            if i != r {
                let j = if !has_key(es, k) && i > r {
                    i - 1
                } else {
                    i
                };
                assert(entry_fits(es[j].0, es[j].1));
            }
        }
    }
}

/// Bytes that an item takes in a page, its slot included.
pub fn item_weight(item: &Item) -> (w: usize)
    requires
        entry_size((item.0@, item.1@)) + SLOT_SIZE <= usize::MAX,
    ensures
        w == entry_size((item.0@, item.1@)) + SLOT_SIZE,
{
    LEAF_ENTRY_OVERHEAD + item.0.len() + item.1.len()
}

/// Bytes that items take in a page, their slots included.
pub fn items_weight(items: &Vec<Item>) -> (w: usize)
    requires
        weight(items_view(items@)) <= usize::MAX,
    ensures
        w == weight(items_view(items@)),
{
    let ghost es = items_view(items@);
    let mut w: usize = 0;
    let mut i: usize = 0;
    assert(es.take(0) =~= Seq::<Entry>::empty());
    while i < items.len()
        invariant
            es == items_view(items@),
            i <= items@.len(),
            w == weight(es.take(i as int)),
            weight(es) <= usize::MAX,
        decreases items@.len() - i,
    {
        proof {
            lemma_weight_step(es, i as int);
            lemma_weight_cut(es, i + 1);
            lemma_weight_bound(es.skip(i + 1));
            lemma_weight_bound(es.take(i as int));
        }
        w += item_weight(&items[i]);
        i += 1;
    }
    assert(es.take(es.len() as int) =~= es);
    w
}

} // verus!
