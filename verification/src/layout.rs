//! What the bytes of a slotted page mean.
//!
//! A page is `PAGE_SIZE` bytes: a header, an array of two-byte slots that grows upwards
//! from the header, free space, and tuples that grow downwards from the end of the page.
//! Each slot holds the offset of a tuple, and the slots are sorted by the key of their
//! tuple. A tuple is a tombstone byte, the lengths of its key and of its value (two bytes
//! each), the key and the value.

use vstd::prelude::*;

use crate::byte::{overwrite, u16_at, u16_bytes, u32_at, u32_bytes};
use crate::key::{group_key_order, key_lt};

verus! {

/// Bytes of a page.
pub const PAGE_SIZE: usize = 8192;

/// Bytes of a page's header.
pub const HEADER_SIZE: usize = 20;

/// Marks a formatted page.
pub const PAGE_MAGIC: u32 = 0x504E5554;

/// Bytes of a slot.
pub const SLOT_SIZE: usize = 2;

/// Bytes of a tuple in front of its key.
pub const TUPLE_HEADER_SIZE: usize = 5;

/// A key and its value.
pub type Entry = (Seq<u8>, Seq<u8>);

// Header fields.

pub open spec fn magic(b: Seq<u8>) -> u32 {
    u32_at(b, 0)
}

pub open spec fn page_id(b: Seq<u8>) -> u32 {
    u32_at(b, 4)
}

pub open spec fn slot_count(b: Seq<u8>) -> u16 {
    u16_at(b, 8)
}

pub open spec fn free_start(b: Seq<u8>) -> u16 {
    u16_at(b, 10)
}

pub open spec fn free_end(b: Seq<u8>) -> u16 {
    u16_at(b, 12)
}

pub open spec fn dead_bytes(b: Seq<u8>) -> u16 {
    u16_at(b, 14)
}

/// The page id that a leaf keeps for the leaf after it, and an internal page for its
/// leftmost child. Zero stands for none.
pub open spec fn link(b: Seq<u8>) -> u32 {
    u32_at(b, 16)
}

// Tuples and slots.

/// Offset of slot `i`.
pub open spec fn slot_pos(i: int) -> int {
    HEADER_SIZE + i * SLOT_SIZE
}

/// Offset of the tuple that slot `i` refers to.
pub open spec fn slot(b: Seq<u8>, i: int) -> int {
    u16_at(b, slot_pos(i)) as int
}

pub open spec fn tuple_key_len(b: Seq<u8>, off: int) -> int {
    u16_at(b, off + 1) as int
}

pub open spec fn tuple_val_len(b: Seq<u8>, off: int) -> int {
    u16_at(b, off + 3) as int
}

/// Offset just behind the tuple at `off`.
pub open spec fn tuple_end(b: Seq<u8>, off: int) -> int {
    off + TUPLE_HEADER_SIZE + tuple_key_len(b, off) + tuple_val_len(b, off)
}

pub open spec fn tuple_key(b: Seq<u8>, off: int) -> Seq<u8> {
    b.subrange(off + TUPLE_HEADER_SIZE, off + TUPLE_HEADER_SIZE + tuple_key_len(b, off))
}

pub open spec fn tuple_val(b: Seq<u8>, off: int) -> Seq<u8> {
    b.subrange(off + TUPLE_HEADER_SIZE + tuple_key_len(b, off), tuple_end(b, off))
}

/// The bytes of a tuple.
pub open spec fn tuple_image(tombstone: u8, k: Seq<u8>, v: Seq<u8>) -> Seq<u8> {
    seq![tombstone] + u16_bytes(k.len() as u16) + u16_bytes(v.len() as u16) + k + v
}

/// Bytes that the tuple of an entry takes.
pub open spec fn entry_size(e: Entry) -> int {
    TUPLE_HEADER_SIZE + e.0.len() + e.1.len()
}

/// Bytes that the tuples of `es` take.
pub open spec fn entries_size(es: Seq<Entry>) -> int
    decreases es.len(),
{
    if es.len() == 0 {
        0
    } else {
        entries_size(es.drop_last()) + entry_size(es.last())
    }
}

/// The entry of slot `i`.
pub open spec fn entry(b: Seq<u8>, i: int) -> Entry {
    (tuple_key(b, slot(b, i)), tuple_val(b, slot(b, i)))
}

/// The entries of a page, in the order of its slots.
pub open spec fn entries(b: Seq<u8>) -> Seq<Entry> {
    Seq::new(slot_count(b) as nat, |i: int| entry(b, i))
}

// Entry sequences.

/// Strictly ascending keys.
pub open spec fn sorted(es: Seq<Entry>) -> bool {
    forall|i: int, j: int| 0 <= i < j < es.len() ==> key_lt(#[trigger] es[i].0, #[trigger] es[j].0)
}

/// How many entries come before `k` in sorted entries.
pub open spec fn rank(es: Seq<Entry>, k: Seq<u8>) -> int
    decreases es.len(),
{
    if es.len() == 0 {
        0
    } else if key_lt(es.last().0, k) {
        es.len() as int
    } else {
        rank(es.drop_last(), k)
    }
}

/// Whether some entry has key `k`.
pub open spec fn has_key(es: Seq<Entry>, k: Seq<u8>) -> bool {
    exists|i: int| 0 <= i < es.len() && #[trigger] es[i].0 == k
}

/// The value kept under `k`.
pub open spec fn lookup(es: Seq<Entry>, k: Seq<u8>) -> Option<Seq<u8>> {
    if has_key(es, k) {
        Some(es[rank(es, k)].1)
    } else {
        None
    }
}

/// `es` with `v` under `k`.
pub open spec fn upsert(es: Seq<Entry>, k: Seq<u8>, v: Seq<u8>) -> Seq<Entry> {
    if has_key(es, k) {
        es.update(rank(es, k), (k, v))
    } else {
        es.insert(rank(es, k), (k, v))
    }
}

/// `es` without `k`.
pub open spec fn without(es: Seq<Entry>, k: Seq<u8>) -> Seq<Entry> {
    if has_key(es, k) {
        es.remove(rank(es, k))
    } else {
        es
    }
}

// Well-formed pages.

/// Slot `i` refers to a live tuple behind the free space and inside the page.
pub open spec fn tuple_ok(b: Seq<u8>, i: int) -> bool {
    let off = slot(b, i);
    &&& free_end(b) <= off
    &&& off + TUPLE_HEADER_SIZE <= PAGE_SIZE
    &&& tuple_end(b, off) <= PAGE_SIZE
    &&& b[off] != 1
}

/// The tuples of slots `i` and `j` do not share a byte.
pub open spec fn tuples_apart(b: Seq<u8>, i: int, j: int) -> bool {
    tuple_end(b, slot(b, i)) <= slot(b, j) || tuple_end(b, slot(b, j)) <= slot(b, i)
}

/// The header describes the slot array and the free space behind it.
pub open spec fn header_ok(b: Seq<u8>) -> bool {
    &&& b.len() == PAGE_SIZE
    &&& free_start(b) == slot_pos(slot_count(b) as int)
    &&& free_start(b) <= free_end(b) <= PAGE_SIZE
}

/// A page as the operations of this library leave it.
pub open spec fn page_ok(b: Seq<u8>) -> bool {
    &&& header_ok(b)
    &&& forall|i: int| 0 <= i < slot_count(b) ==> #[trigger] tuple_ok(b, i)
    &&& forall|i: int, j: int|
        0 <= i < j < slot_count(b) ==> #[trigger] tuples_apart(b, i, j)
    &&& sorted(entries(b))
    &&& entries_size(entries(b)) <= PAGE_SIZE - free_end(b)
}

/// Slot `i` refers to a tuple inside the page.
pub open spec fn tuple_in(b: Seq<u8>, i: int) -> bool {
    slot(b, i) + TUPLE_HEADER_SIZE <= PAGE_SIZE && tuple_end(b, slot(b, i)) <= PAGE_SIZE
}

/// The slots are inside the page and refer to tuples inside the page, in ascending order of
/// their keys.
pub open spec fn readable(b: Seq<u8>) -> bool {
    &&& b.len() == PAGE_SIZE
    &&& slot_pos(slot_count(b) as int) <= PAGE_SIZE
    &&& forall|i: int| 0 <= i < slot_count(b) ==> #[trigger] tuple_in(b, i)
    &&& sorted(entries(b))
}

/// The tuple of slot `i` is not marked as dead.
pub open spec fn visible(b: Seq<u8>, i: int) -> bool {
    b[slot(b, i)] != 1
}

/// The value that is seen under `k`: none where the tuple is marked as dead.
pub open spec fn seen(b: Seq<u8>, k: Seq<u8>) -> Option<Seq<u8>> {
    if has_key(entries(b), k) && visible(b, rank(entries(b), k)) {
        lookup(entries(b), k)
    } else {
        None
    }
}

/// The tombstone of every tuple that a slot refers to is zero.
pub open spec fn unmarked(b: Seq<u8>) -> bool {
    forall|i: int| 0 <= i < slot_count(b) ==> b[#[trigger] slot(b, i)] == 0
}

/// The bytes behind the free space are those of the entries and the dead ones.
pub open spec fn accounted(b: Seq<u8>) -> bool {
    dead_bytes(b) == PAGE_SIZE - free_end(b) - entries_size(entries(b))
}

// Pages of any bytes.

/// Slot `i` and the key of its tuple are inside the page.
pub open spec fn key_reads(b: Seq<u8>, i: int) -> bool {
    let off = slot(b, i);
    &&& slot_pos(i) + SLOT_SIZE <= PAGE_SIZE
    &&& off + TUPLE_HEADER_SIZE <= PAGE_SIZE
    &&& off + TUPLE_HEADER_SIZE + tuple_key_len(b, off) <= PAGE_SIZE
}

/// Slot `i` and its tuple are inside the page.
pub open spec fn tuple_reads(b: Seq<u8>, i: int) -> bool {
    slot_pos(i) + SLOT_SIZE <= PAGE_SIZE && tuple_in(b, i)
}

/// Slot `i` can be read: it refers into the page, to a tuple that is marked as dead or is
/// inside the page.
pub open spec fn slot_reads(b: Seq<u8>, i: int) -> bool {
    &&& slot_pos(i) + SLOT_SIZE <= PAGE_SIZE
    &&& slot(b, i) < PAGE_SIZE
    &&& visible(b, i) ==> tuple_in(b, i)
}

/// Where a binary search ends.
pub enum Probe {
    /// At this slot, which has the key.
    Found(int),
    /// In front of this slot; no slot on the way has the key.
    NotFound(int),
    /// At a slot whose key is not inside the page.
    Broken,
}

/// Where a binary search for `k` in the slots from `lo` up to but without `hi` ends.
pub open spec fn probe(b: Seq<u8>, k: Seq<u8>, lo: int, hi: int) -> Probe
    decreases hi - lo,
{
    if lo >= hi {
        Probe::NotFound(lo)
    } else {
        let mid = (lo + hi) / 2;
        if !key_reads(b, mid) {
            Probe::Broken
        } else if entry(b, mid).0 == k {
            Probe::Found(mid)
        } else if key_lt(entry(b, mid).0, k) {
            probe(b, k, mid + 1, hi)
        } else {
            probe(b, k, lo, mid)
        }
    }
}

/// What a lookup of `k` in a page of any bytes gives: a value or none, as `seen` says of pages
/// with sorted keys. It gives nothing where the search or the tuple runs out of the page.
pub open spec fn reading(b: Seq<u8>, k: Seq<u8>) -> Option<Option<Seq<u8>>> {
    match probe(b, k, 0, slot_count(b) as int) {
        Probe::Found(i) => if !visible(b, i) {
            Some(None)
        } else if tuple_reads(b, i) {
            Some(Some(entry(b, i).1))
        } else {
            None
        },
        Probe::NotFound(_) => Some(None),
        Probe::Broken => None,
    }
}

/// The value that the slot of `k` refers to in a page of any bytes, marked as dead or not. It is
/// nothing where the search or the tuple runs out of the page.
pub open spec fn stored(b: Seq<u8>, k: Seq<u8>) -> Option<Option<Seq<u8>>> {
    match probe(b, k, 0, slot_count(b) as int) {
        Probe::Found(i) => if tuple_reads(b, i) {
            Some(Some(entry(b, i).1))
        } else {
            None
        },
        Probe::NotFound(_) => Some(None),
        Probe::Broken => None,
    }
}

/// The entries of the first `n` slots whose tuples are not marked as dead.
pub open spec fn live_to(b: Seq<u8>, n: int) -> Seq<Entry>
    decreases n,
{
    if n <= 0 {
        Seq::empty()
    } else if visible(b, n - 1) {
        live_to(b, n - 1).push(entry(b, n - 1))
    } else {
        live_to(b, n - 1)
    }
}

/// The entries whose tuples are not marked as dead.
pub open spec fn live(b: Seq<u8>) -> Seq<Entry> {
    live_to(b, slot_count(b) as int)
}

/// In sorted slots a binary search ends at the rank of the key.
pub proof fn lemma_probe(b: Seq<u8>, k: Seq<u8>, lo: int, hi: int)
    requires
        readable(b),
        0 <= lo <= hi <= slot_count(b),
        forall|i: int| 0 <= i < lo ==> key_lt(#[trigger] entries(b)[i].0, k),
        forall|i: int| hi <= i < slot_count(b) ==> key_lt(k, #[trigger] entries(b)[i].0),
    ensures
        probe(b, k, lo, hi) == if has_key(entries(b), k) {
            Probe::Found(rank(entries(b), k))
        } else {
            Probe::NotFound(rank(entries(b), k))
        },
    decreases hi - lo,
{
    broadcast use group_key_order;

    let es = entries(b);
    lemma_rank(es, k);
    if lo >= hi {
        lemma_rank_unique(es, k, lo);
        lemma_rank(es, k);
    } else {
        let mid = (lo + hi) / 2;
        assert(tuple_in(b, mid));
        assert(es[mid] == entry(b, mid));
        if es[mid].0 == k {
            lemma_at(es, mid);
        } else {
            crate::key::law_key_total(es[mid].0, k);
            if key_lt(es[mid].0, k) {
                lemma_probe(b, k, mid + 1, hi);
            } else {
                lemma_probe(b, k, lo, mid);
            }
        }
    }
}

/// `e` is the entry of one of the first `n` slots, and its tuple is not marked as dead.
pub open spec fn shown(b: Seq<u8>, n: int, e: Entry) -> bool {
    exists|j: int| 0 <= j < n && visible(b, j) && e == #[trigger] entry(b, j)
}

/// The live entries of sorted slots are sorted, and a key is found among them where it is seen
/// in the page.
pub proof fn lemma_live_to(b: Seq<u8>, n: int)
    requires
        readable(b),
        0 <= n <= slot_count(b),
    ensures
        sorted(live_to(b, n)),
        live_to(b, n).len() <= n,
        forall|i: int| 0 <= i < live_to(b, n).len() ==> shown(b, n, #[trigger] live_to(b, n)[i]),
        forall|j: int|
            0 <= j < n && visible(b, j) ==> live_to(b, n).contains(#[trigger] entry(b, j)),
    decreases n,
{
    if n > 0 {
        lemma_live_to(b, n - 1);
        let r = live_to(b, n - 1);
        let s = live_to(b, n);
        let es = entries(b);
        assert(es[n - 1] == entry(b, n - 1));
        assert forall|i: int| 0 <= i < s.len() implies shown(b, n, #[trigger] s[i]) by {
            if i < r.len() {
                assert(shown(b, n - 1, r[i]));
                let a = choose|a: int|
                    0 <= a < n - 1 && visible(b, a) && r[i] == #[trigger] entry(b, a);
                assert(s[i] == entry(b, a));
            } else {
                assert(s[i] == entry(b, n - 1));
            }
        }
        if visible(b, n - 1) {
            assert forall|i: int, j: int| 0 <= i < j < s.len() implies key_lt(
                #[trigger] s[i].0,
                #[trigger] s[j].0,
            ) by {
                if j < r.len() {
                    assert(key_lt(r[i].0, r[j].0));
                } else {
                    assert(shown(b, n - 1, r[i]));
                    let a = choose|a: int|
                        0 <= a < n - 1 && visible(b, a) && r[i] == #[trigger] entry(b, a);
                    assert(es[a] == entry(b, a));
                    assert(key_lt(es[a].0, es[n - 1].0));
                }
            }
            assert forall|j: int| 0 <= j < n && visible(b, j) implies s.contains(
                #[trigger] entry(b, j),
            ) by {
                if j < n - 1 {
                    let i = r.index_of(entry(b, j));
                    assert(r.contains(entry(b, j)));
                    assert(s[i] == entry(b, j));
                } else {
                    assert(s[r.len() as int] == entry(b, j));
                }
            }
        }
    }
}

/// A lookup in a page that can be read sees what is live.
pub proof fn lemma_readable(b: Seq<u8>, k: Seq<u8>)
    requires
        readable(b),
    ensures
        reading(b, k) == Some(seen(b, k)),
        stored(b, k) == Some(lookup(entries(b), k)),
        sorted(live(b)),
        lookup(live(b), k) == seen(b, k),
{
    let es = entries(b);
    let n = slot_count(b) as int;
    lemma_probe(b, k, 0, n);
    lemma_rank(es, k);
    lemma_live_to(b, n);
    lemma_rank(live(b), k);
    if has_key(es, k) {
        let r = rank(es, k);
        assert(tuple_in(b, r));
        assert(es[r] == entry(b, r));
    }
    if has_key(live(b), k) {
        let i = rank(live(b), k);
        assert(shown(b, n, live(b)[i]));
        let j = choose|j: int| 0 <= j < n && visible(b, j) && live(b)[i] == #[trigger] entry(b, j);
        assert(es[j] == entry(b, j));
        lemma_at(es, j);
    } else if seen(b, k) is Some {
        let r = rank(es, k);
        let i = live(b).index_of(entry(b, r));
        assert(live(b).contains(entry(b, r)));
        assert(live(b)[i].0 == k);
    }
}

/// Well-formed pages can be read, and all their entries are live and seen.
pub proof fn lemma_page_ok(b: Seq<u8>)
    requires
        page_ok(b),
    ensures
        readable(b),
        forall|i: int| 0 <= i < slot_count(b) ==> #[trigger] visible(b, i),
        forall|k: Seq<u8>| #[trigger] seen(b, k) == lookup(entries(b), k),
        forall|k: Seq<u8>| #[trigger] reading(b, k) == Some(lookup(entries(b), k)),
        forall|k: Seq<u8>| #[trigger] stored(b, k) == Some(lookup(entries(b), k)),
        live(b) == entries(b),
{
    assert forall|i: int| 0 <= i < slot_count(b) implies #[trigger] tuple_in(b, i) by {
        assert(tuple_ok(b, i));
    }
    assert forall|i: int| 0 <= i < slot_count(b) implies #[trigger] visible(b, i) by {
        assert(tuple_ok(b, i));
    }
    assert forall|k: Seq<u8>| #[trigger] seen(b, k) == lookup(entries(b), k) by {
        lemma_rank(entries(b), k);
        if has_key(entries(b), k) {
            assert(visible(b, rank(entries(b), k)));
        }
    }
    assert forall|k: Seq<u8>| #[trigger] reading(b, k) == Some(lookup(entries(b), k)) by {
        lemma_readable(b, k);
        assert(seen(b, k) == lookup(entries(b), k));
    }
    assert forall|k: Seq<u8>| #[trigger] stored(b, k) == Some(lookup(entries(b), k)) by {
        lemma_readable(b, k);
    }
    lemma_all_live(b, slot_count(b) as int);
    assert(entries(b).take(slot_count(b) as int) =~= entries(b));
}

/// Where no tuple is marked as dead, all entries are live.
pub proof fn lemma_all_live(b: Seq<u8>, n: int)
    requires
        0 <= n <= slot_count(b),
        forall|i: int| 0 <= i < slot_count(b) ==> #[trigger] visible(b, i),
    ensures
        live_to(b, n) == entries(b).take(n),
    decreases n,
{
    if n > 0 {
        lemma_all_live(b, n - 1);
        assert(visible(b, n - 1));
    }
    assert(live_to(b, n) =~= entries(b).take(n));
}

/// Free bytes between the slots and the tuples.
pub open spec fn free_space(b: Seq<u8>) -> int {
    free_end(b) - free_start(b)
}

/// The page that holds nothing.
pub open spec fn empty_page(id: u32) -> Seq<u8> {
    let zeros = Seq::new(PAGE_SIZE as nat, |i: int| 0u8);
    let named = overwrite(overwrite(zeros, 0, u32_bytes(PAGE_MAGIC)), 4, u32_bytes(id));
    overwrite(
        overwrite(named, 10, u16_bytes(HEADER_SIZE as u16)),
        12,
        u16_bytes(PAGE_SIZE as u16),
    )
}

// Facts about entry sequences.

/// The position that `rank` counts up to splits the keys at `k`.
pub proof fn lemma_rank(es: Seq<Entry>, k: Seq<u8>)
    requires
        sorted(es),
    ensures
        0 <= rank(es, k) <= es.len(),
        forall|i: int| 0 <= i < rank(es, k) ==> key_lt(#[trigger] es[i].0, k),
        forall|i: int| rank(es, k) <= i < es.len() ==> !key_lt(#[trigger] es[i].0, k),
        has_key(es, k) <==> rank(es, k) < es.len() && es[rank(es, k)].0 == k,
    decreases es.len(),
{
    broadcast use group_key_order;

    if es.len() > 0 && !key_lt(es.last().0, k) {
        let r = es.drop_last();
        lemma_rank(r, k);
        assert forall|i: int| 0 <= i < rank(es, k) implies key_lt(#[trigger] es[i].0, k) by {
            assert(r[i].0 == es[i].0);
        }
        assert forall|i: int| rank(es, k) <= i < es.len() implies !key_lt(
            #[trigger] es[i].0,
            k,
        ) by {
            if i < r.len() {
                assert(r[i].0 == es[i].0);
            }
        }
    }
    if has_key(es, k) {
        let i = choose|i: int| 0 <= i < es.len() && es[i].0 == k;
        assert(key_lt(es[i].0, k) == false);
        if rank(es, k) < i {
            assert(key_lt(es[rank(es, k)].0, es[i].0));
        }
    }
}

/// A position that splits the keys at `k` is the rank of `k`.
pub proof fn lemma_rank_unique(es: Seq<Entry>, k: Seq<u8>, p: int)
    requires
        sorted(es),
        0 <= p <= es.len(),
        forall|i: int| 0 <= i < p ==> key_lt(#[trigger] es[i].0, k),
        p < es.len() ==> !key_lt(es[p].0, k),
    ensures
        p == rank(es, k),
{
    lemma_rank(es, k);
    if p < rank(es, k) {
        assert(key_lt(es[p].0, k));
    } else if p > rank(es, k) {
        assert(key_lt(es[rank(es, k)].0, k));
    }
}

pub proof fn lemma_entries_size_concat(a: Seq<Entry>, c: Seq<Entry>)
    ensures
        entries_size(a + c) == entries_size(a) + entries_size(c),
    decreases c.len(),
{
    if c.len() == 0 {
        assert(a + c =~= a);
    } else {
        lemma_entries_size_concat(a, c.drop_last());
        assert((a + c).drop_last() =~= a + c.drop_last());
    }
}

pub proof fn lemma_entries_size_one(e: Entry)
    ensures
        entries_size(seq![e]) == entry_size(e),
{
    assert(seq![e].drop_last() =~= Seq::<Entry>::empty());
    reveal_with_fuel(entries_size, 2);
}

pub proof fn lemma_entries_size_insert(es: Seq<Entry>, p: int, e: Entry)
    requires
        0 <= p <= es.len(),
    ensures
        entries_size(es.insert(p, e)) == entries_size(es) + entry_size(e),
{
    lemma_entries_size_one(e);
    lemma_entries_size_concat(es.take(p), es.skip(p));
    lemma_entries_size_concat(es.take(p), seq![e]);
    lemma_entries_size_concat(es.take(p) + seq![e], es.skip(p));
    assert(es.take(p) + es.skip(p) =~= es);
    assert(es.take(p) + seq![e] + es.skip(p) =~= es.insert(p, e));
}

pub proof fn lemma_entries_size_remove(es: Seq<Entry>, p: int)
    requires
        0 <= p < es.len(),
    ensures
        entries_size(es.remove(p)) == entries_size(es) - entry_size(es[p]),
{
    lemma_entries_size_insert(es.remove(p), p, es[p]);
    assert(es.remove(p).insert(p, es[p]) =~= es);
}

pub proof fn lemma_entries_size_update(es: Seq<Entry>, p: int, e: Entry)
    requires
        0 <= p < es.len(),
    ensures
        entries_size(es.update(p, e)) == entries_size(es) - entry_size(es[p]) + entry_size(e),
{
    lemma_entries_size_remove(es, p);
    lemma_entries_size_insert(es.remove(p), p, e);
    assert(es.remove(p).insert(p, e) =~= es.update(p, e));
}

/// Entries take no negative space, each at least the header of its tuple.
pub proof fn lemma_entries_size_bound(es: Seq<Entry>)
    ensures
        entries_size(es) >= TUPLE_HEADER_SIZE * es.len(),
    decreases es.len(),
{
    if es.len() > 0 {
        lemma_entries_size_bound(es.drop_last());
    }
}

pub proof fn lemma_upsert_sorted(es: Seq<Entry>, k: Seq<u8>, v: Seq<u8>)
    requires
        sorted(es),
    ensures
        sorted(upsert(es, k, v)),
{
    broadcast use group_key_order;

    lemma_rank(es, k);
    let r = rank(es, k);
    if !has_key(es, k) {
        if r < es.len() {
            crate::key::law_key_total(es[r].0, k);
        }
        let n = es.insert(r, (k, v));
        assert forall|i: int, j: int| 0 <= i < j < n.len() implies key_lt(
            #[trigger] n[i].0,
            #[trigger] n[j].0,
        ) by {
            if i == r {
                if j - 1 > r {
                    assert(key_lt(es[r].0, es[j - 1].0));
                }
            } else if j == r {
            } else {
                let i0 = if i < r { i } else { i - 1 };
                let j0 = if j < r { j } else { j - 1 };
                assert(key_lt(es[i0].0, es[j0].0));
            }
        }
    }
}

pub proof fn lemma_remove_sorted(es: Seq<Entry>, p: int)
    requires
        sorted(es),
        0 <= p < es.len(),
    ensures
        sorted(es.remove(p)),
{
    let n = es.remove(p);
    assert forall|i: int, j: int| 0 <= i < j < n.len() implies key_lt(
        #[trigger] n[i].0,
        #[trigger] n[j].0,
    ) by {
        let i0 = if i < p { i } else { i + 1 };
        let j0 = if j < p { j } else { j + 1 };
        assert(key_lt(es[i0].0, es[j0].0));
    }
}

/// After a value was put under `k`, that value is found there, and under any other key what
/// was found before.
pub proof fn law_lookup_after_put(es: Seq<Entry>, k: Seq<u8>, v: Seq<u8>, q: Seq<u8>)
    requires
        sorted(es),
    ensures
        lookup(upsert(es, k, v), q) == if q == k {
            Some(v)
        } else {
            lookup(es, q)
        },
{
    broadcast use group_key_order;

    let n = upsert(es, k, v);
    crate::layout::lemma_upsert_sorted(es, k, v);
    lemma_rank(es, k);
    lemma_rank(es, q);
    lemma_rank(n, q);
    let r = rank(es, k);
    if q == k {
        assert(n[r].0 == k);
        lemma_at(n, r);
    } else {
        if has_key(n, q) {
            let i = rank(n, q);
            let j = if !has_key(es, k) && i > r {
                i - 1
            } else {
                i
            };
            assert(es[j] == n[i]);
            lemma_at(es, j);
        } else if has_key(es, q) {
            let j = rank(es, q);
            let i = if !has_key(es, k) && j >= r {
                j + 1
            } else {
                j
            };
            assert(es[j] == n[i]);
            assert(n[i].0 == q);
        }
    }
}

/// After `k` was removed nothing is found there, and under any other key what was found before.
pub proof fn law_lookup_after_remove(es: Seq<Entry>, k: Seq<u8>, q: Seq<u8>)
    requires
        sorted(es),
    ensures
        lookup(without(es, k), q) == if q == k {
            None
        } else {
            lookup(es, q)
        },
{
    broadcast use group_key_order;

    lemma_rank(es, k);
    lemma_rank(es, q);
    let r = rank(es, k);
    if has_key(es, k) {
        let n = es.remove(r);
        crate::layout::lemma_remove_sorted(es, r);
        lemma_rank(n, q);
        if has_key(n, q) {
            let i = rank(n, q);
            let j = if i >= r {
                i + 1
            } else {
                i
            };
            assert(es[j] == n[i]);
            lemma_at(es, j);
            if q == k {
                assert(es[j].0 == es[r].0);
                if j < r {
                    assert(key_lt(es[j].0, es[r].0));
                } else {
                    assert(key_lt(es[r].0, es[j].0));
                }
            }
        } else if has_key(es, q) && q != k {
            let j = rank(es, q);
            let i = if j > r {
                j - 1
            } else {
                j
            };
            assert(es[j] == n[i]);
            assert(n[i].0 == q);
        }
    }
}

/// Looking up the key of an entry finds that entry.
pub proof fn lemma_at(es: Seq<Entry>, i: int)
    requires
        sorted(es),
        0 <= i < es.len(),
    ensures
        has_key(es, es[i].0),
        rank(es, es[i].0) == i,
        lookup(es, es[i].0) == Some(es[i].1),
{
    broadcast use group_key_order;

    lemma_rank_unique(es, es[i].0, i);
}

/// A key is looked up in the half on its side of the cut.
pub proof fn lemma_lookup_cut(es: Seq<Entry>, m: int, q: Seq<u8>)
    requires
        sorted(es),
        0 <= m < es.len(),
    ensures
        lookup(es, q) == if key_lt(q, es[m].0) {
            lookup(es.take(m), q)
        } else {
            lookup(es.skip(m), q)
        },
{
    broadcast use group_key_order;

    let l = es.take(m);
    let r = es.skip(m);
    crate::items::lemma_cut_sorted(es, m);
    lemma_rank(es, q);
    lemma_rank(l, q);
    lemma_rank(r, q);
    if has_key(es, q) {
        let i = rank(es, q);
        if i < m {
            assert(key_lt(es[i].0, es[m].0));
            assert(l[i] == es[i]);
            lemma_at(l, i);
        } else {
            if i > m {
                assert(key_lt(es[m].0, es[i].0));
            }
            assert(r[i - m] == es[i]);
            lemma_at(r, i - m);
        }
    } else {
        if has_key(l, q) {
            assert(es[rank(l, q)].0 == q);
        }
        if has_key(r, q) {
            assert(es[rank(r, q) + m].0 == q);
        }
    }
}

} // verus!
