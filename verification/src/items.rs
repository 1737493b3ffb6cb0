//! Entries taken out of a page, to be spread over new pages.

use vstd::prelude::*;
use vstd::slice::slice_to_vec;

use crate::key::{compare, group_key_order, key_lt, Order};
use crate::layout::{
    dead_bytes, entries, entries_size, entry, entry_size, free_end, has_key,
    lemma_entries_size_bound, lemma_entries_size_concat, lemma_entries_size_insert,
    lemma_entries_size_update, lemma_live_to, lemma_rank, lemma_rank_unique, link, live, live_to,
    page_id, page_ok, rank, readable, slot_count, sorted, tuple_in, upsert, without, Entry,
    HEADER_SIZE, PAGE_SIZE, SLOT_SIZE, TUPLE_HEADER_SIZE,
};
use crate::page::{compacted_free_end, Page};

verus! {

/// A key and its value, outside of a page.
pub type Item = (Vec<u8>, Vec<u8>);

/// The entries that items stand for.
pub open spec fn items_view(v: Seq<Item>) -> Seq<Entry> {
    Seq::new(v.len(), |i: int| (v[i].0@, v[i].1@))
}

/// Bytes that entries take in a page, their slots included.
pub open spec fn weight(es: Seq<Entry>) -> int {
    entries_size(es) + es.len() * SLOT_SIZE
}

/// Bytes that a page has for tuples and slots.
pub open spec fn page_capacity() -> int {
    PAGE_SIZE - HEADER_SIZE
}

pub proof fn lemma_weight_concat(a: Seq<Entry>, c: Seq<Entry>)
    ensures
        weight(a + c) == weight(a) + weight(c),
{
    lemma_entries_size_concat(a, c);
}

pub proof fn lemma_weight_bound(es: Seq<Entry>)
    ensures
        weight(es) >= 7 * es.len(),
{
    lemma_entries_size_bound(es);
}

/// The weight of entries is that of a prefix and of the rest.
pub proof fn lemma_weight_cut(es: Seq<Entry>, m: int)
    requires
        0 <= m <= es.len(),
    ensures
        weight(es) == weight(es.take(m)) + weight(es.skip(m)),
{
    lemma_weight_concat(es.take(m), es.skip(m));
    assert(es.take(m) + es.skip(m) =~= es);
}

pub proof fn lemma_weight_step(es: Seq<Entry>, m: int)
    requires
        0 <= m < es.len(),
    ensures
        weight(es.take(m + 1)) == weight(es.take(m)) + entry_size(es[m]) + SLOT_SIZE,
{
    assert(es.take(m + 1).drop_last() =~= es.take(m));
}

/// What a well-formed page holds fits in a page.
pub proof fn lemma_page_weight(b: Seq<u8>)
    requires
        page_ok(b),
    ensures
        weight(entries(b)) <= page_capacity(),
{
}

pub proof fn lemma_upsert_weight(es: Seq<Entry>, k: Seq<u8>, v: Seq<u8>)
    requires
        sorted(es),
    ensures
        weight(upsert(es, k, v)) <= weight(es) + entry_size((k, v)) + SLOT_SIZE,
{
    lemma_rank(es, k);
    let r = rank(es, k);
    if has_key(es, k) {
        lemma_entries_size_update(es, r, (k, v));
    } else {
        lemma_entries_size_insert(es, r, (k, v));
    }
}

pub proof fn lemma_cut_sorted(es: Seq<Entry>, m: int)
    requires
        sorted(es),
        0 <= m <= es.len(),
    ensures
        sorted(es.take(m)),
        sorted(es.skip(m)),
{
    let t = es.take(m);
    assert forall|i: int, j: int| 0 <= i < j < t.len() implies key_lt(
        #[trigger] t[i].0,
        #[trigger] t[j].0,
    ) by {
        assert(key_lt(es[i].0, es[j].0));
    }
    let s = es.skip(m);
    assert forall|i: int, j: int| 0 <= i < j < s.len() implies key_lt(
        #[trigger] s[i].0,
        #[trigger] s[j].0,
    ) by {
        assert(key_lt(es[m + i].0, es[m + j].0));
    }
}

/// The entries of `page` whose tuples are not marked as dead.
pub fn live_items(page: &Page) -> (items: Vec<Item>)
    requires
        readable(page@),
    ensures
        items_view(items@) == live(page@),
{
    let count: usize = page.slot_count() as usize;
    let mut items: Vec<Item> = Vec::new();
    let mut i: usize = 0;
    assert(items_view(items@) =~= live_to(page@, 0));
    while i < count
        invariant
            readable(page@),
            count == slot_count(page@),
            i <= count,
            items_view(items@) == live_to(page@, i as int),
        decreases count - i,
    {
        assert(tuple_in(page@, i as int));
        if let Some((k, v)) = page.get_key_value_at_slot(i) {
            let ghost before = items@;
            items.push((slice_to_vec(k), slice_to_vec(v)));
            assert(items_view(items@) =~= items_view(before).push(entry(page@, i as int)));
        }
        i += 1;
    }
    items
}

/// The live entries of `page` without `key`, and where it would go among them.
pub fn other_items(page: &Page, key: &[u8]) -> (r: (Vec<Item>, usize))
    requires
        readable(page@),
    ensures
        items_view(r.0@) == without(live(page@), key@),
        r.1 == rank(live(page@), key@),
{
    broadcast use group_key_order;

    let ghost es = live(page@);
    let mut items: Vec<Item> = live_items(page);
    let pos: usize = items_rank(&items, key);
    proof {
        lemma_live_to(page@, slot_count(page@) as int);
        lemma_rank(es, key@);
    }
    let ghost all = items@;
    let found: bool = pos < items.len() && match compare(items[pos].0.as_slice(), key) {
        Order::Equal => true,
        _ => false,
    };
    assert(found == has_key(es, key@)) by {
        if pos < es.len() {
            assert(es[pos as int].0 == all[pos as int].0@);
        }
    }
    if found {
        items.remove(pos);
    }
    assert(items_view(items@) =~= without(es, key@)) by {
        assert(forall|i: int| 0 <= i < all.len() ==> #[trigger] es[i] == (all[i].0@, all[i].1@));
    }
    (items, pos)
}

/// The live entries of `page` with `val` under `key`.
pub fn merged_items(page: &Page, key: &[u8], val: &[u8]) -> (items: Vec<Item>)
    requires
        readable(page@),
    ensures
        items_view(items@) == upsert(live(page@), key@, val@),
{
    let ghost es = live(page@);
    let (mut items, pos): (Vec<Item>, usize) = other_items(page, key);
    proof {
        lemma_live_to(page@, slot_count(page@) as int);
        lemma_rank(es, key@);
    }
    let ghost rest = items@;
    assert(rest.len() == items_view(rest).len());
    items.insert(pos, (slice_to_vec(key), slice_to_vec(val)));
    proof {
        let e = (key@, val@);
        assert(items_view(items@) =~= items_view(rest).insert(pos as int, e));
        assert(without(es, key@).insert(pos as int, e) =~= upsert(es, key@, val@));
    }
    items
}

/// How many items come before `key`.
fn items_rank(items: &Vec<Item>, key: &[u8]) -> (pos: usize)
    ensures
        pos <= items@.len(),
        sorted(items_view(items@)) ==> pos == rank(items_view(items@), key@),
{
    broadcast use group_key_order;

    let ghost es = items_view(items@);
    let mut pos: usize = 0;
    while pos < items.len()
        invariant
            es == items_view(items@),
            pos <= items@.len(),
            forall|i: int| 0 <= i < pos ==> key_lt(#[trigger] es[i].0, key@),
        decreases items@.len() - pos,
    {
        broadcast use group_key_order;

        assert(es[pos as int].0 == items@[pos as int].0@);
        match compare(items[pos].0.as_slice(), key) {
            Order::Less => {
                pos += 1;
            },
            _ => {
                proof {
                    if sorted(es) {
                        assert(!key_lt(es[pos as int].0, key@));
                        lemma_rank(es, key@);
                    }
                }
                return pos;
            },
        }
    }
    proof {
        if sorted(es) {
            lemma_rank(es, key@);
        }
    }
    pos
}

/// Whether items fit in one page.
pub fn fits_page(items: &Vec<Item>) -> (r: bool)
    ensures
        r == (weight(items_view(items@)) <= page_capacity()),
{
    let ghost es = items_view(items@);
    let mut w: usize = 0;
    let mut i: usize = 0;
    assert(es.take(0) =~= Seq::<Entry>::empty());
    while i < items.len()
        invariant
            es == items_view(items@),
            i <= items@.len(),
            w == weight(es.take(i as int)),
            w <= page_capacity(),
        decreases items@.len() - i,
    {
        proof {
            lemma_weight_step(es, i as int);
            lemma_weight_cut(es, i + 1);
            lemma_weight_bound(es.skip(i + 1));
            assert(es[i as int] == (items@[i as int].0@, items@[i as int].1@));
        }
        let k: usize = items[i].0.len();
        let v: usize = items[i].1.len();
        if k > PAGE_SIZE || v > PAGE_SIZE || w + TUPLE_HEADER_SIZE + SLOT_SIZE + k + v > PAGE_SIZE
            - HEADER_SIZE {
            return false;
        }
        w += TUPLE_HEADER_SIZE + SLOT_SIZE + k + v;
        i += 1;
    }
    assert(es.take(es.len() as int) =~= es);
    true
}

/// A page with the given header fields that holds items `from` up to `to`.
pub fn build_page(id: u32, next: Option<u32>, items: &Vec<Item>, from: usize, to: usize) -> (p: Page)
    requires
        from <= to <= items@.len(),
        sorted(items_view(items@)),
        weight(items_view(items@).subrange(from as int, to as int)) <= page_capacity(),
    ensures
        p.ok(),
        p.percent() == 75,
        entries(p@) == items_view(items@).subrange(from as int, to as int),
        page_id(p@) == id,
        link(p@) == match next {
            Some(v) => v,
            None => 0,
        },
        dead_bytes(p@) == 0,
        free_end(p@) == compacted_free_end(entries(p@)),
{
    let ghost all = items_view(items@);
    let ghost es = all.subrange(from as int, to as int);
    let mut p = Page::new(id);
    let mut i: usize = from;
    assert(es.take(0) =~= Seq::<Entry>::empty());
    while i < to
        invariant
            from <= i <= to <= items@.len(),
            all == items_view(items@),
            sorted(all),
            es == all.subrange(from as int, to as int),
            weight(es) <= page_capacity(),
            p.ok(),
            p.percent() == 75,
            entries(p@) == es.take(i - from),
            page_id(p@) == id,
            link(p@) == 0,
            dead_bytes(p@) == 0,
            free_end(p@) == compacted_free_end(es.take(i - from)),
        decreases to - i,
    {
        let k: &[u8] = items[i].0.as_slice();
        let v: &[u8] = items[i].1.as_slice();
        proof {
            let n = i - from;
            let head = es.take(n);
            assert(es[n] == (k@, v@));
            assert(es.take(n + 1) =~= head.insert(n, (k@, v@)));
            lemma_entries_size_insert(head, n, (k@, v@));
            lemma_weight_cut(es, n + 1);
            lemma_weight_bound(es.skip(n + 1));
            assert forall|j: int| 0 <= j < head.len() implies key_lt(#[trigger] head[j].0, k@) by {
                assert(key_lt(all[from + j].0, all[i as int].0));
            }
            lemma_rank_unique(head, k@, n);
            lemma_rank(head, k@);
        }
        p.append_entry(k, v);
        i += 1;
    }
    assert(es.take(es.len() as int) =~= es);
    p.set_next_leaf_page_id(next);
    p
}

/// A shorter prefix weighs no more than a longer one.
pub proof fn lemma_weight_prefix(es: Seq<Entry>, a: int, b: int)
    requires
        0 <= a <= b <= es.len(),
    ensures
        weight(es.take(a)) <= weight(es.take(b)),
{
    let t = es.take(b);
    lemma_weight_cut(t, a);
    lemma_weight_bound(t.skip(a));
    assert(t.take(a) =~= es.take(a));
}

/// Items stand for their keys and values, in their order.
pub proof fn law_items(v: Seq<Item>)
    ensures
        items_view(v).len() == v.len(),
        forall|i: int| 0 <= i < v.len() ==> #[trigger] items_view(v)[i] == (v[i].0@, v[i].1@),
{
}

} // verus!
