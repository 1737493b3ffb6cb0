//! Slotted pages.

use vstd::prelude::*;
use vstd::slice::{slice_subrange, slice_to_vec};

use crate::byte::{
    overwrite, read_u16, read_u32, u16_bytes, u32_bytes, write_bytes, write_u16, write_u32,
};
use crate::key::{compare, group_key_order, key_lt, Order};
use crate::layout::{
    accounted, dead_bytes, empty_page, entries, entries_size, entry, entry_size, free_end,
    free_space, free_start, has_key, header_ok, key_reads, law_lookup_after_put,
    law_lookup_after_remove, lemma_at, lemma_entries_size_bound, lemma_entries_size_concat,
    lemma_entries_size_insert, lemma_entries_size_remove, lemma_entries_size_update, lemma_page_ok,
    lemma_probe, lemma_rank, lemma_rank_unique, lemma_readable, lemma_upsert_sorted, link, lookup,
    magic, page_id, page_ok, probe, rank, readable, reading, seen, slot, slot_count, slot_pos,
    slot_reads, sorted, stored, tuple_end, tuple_image, tuple_in, tuple_key, tuple_key_len,
    tuple_ok, tuple_reads, tuple_val, tuple_val_len, tuples_apart, unmarked, upsert, visible,
    without, Entry, Probe, HEADER_SIZE, PAGE_MAGIC, PAGE_SIZE, SLOT_SIZE, TUPLE_HEADER_SIZE,
};
use crate::layout_proof::{
    lemma_entry_size, lemma_page_insert, lemma_page_relabel, lemma_page_remove, lemma_page_update,
};

verus! {

const HDR_MAGIC_OFF: usize = 0;

const HDR_PAGE_ID_OFF: usize = 4;

const HDR_SLOT_CNT_OFF: usize = 8;

const HDR_FREE_START_OFF: usize = 10;

const HDR_FREE_END_OFF: usize = 12;

const HDR_DEAD_BYTES_OFF: usize = 14;

const HDR_NEXT_LEAF_PAGE_ID_OFF: usize = 16;

/// Where a key is, or where it would go.
#[derive(Debug, Clone, Copy, PartialEq, Eq)]
enum SearchResult {
    Found(usize),
    NotFound(usize),
}

/// Whether `dead` dead bytes are at least `percent` percent of the tuple region of a page
/// whose free space ends at `end`.
pub open spec fn compaction_due(end: int, dead: int, percent: int) -> bool {
    PAGE_SIZE != end && dead * 100 >= (PAGE_SIZE - end) * percent
}

/// End of the free space when only the tuples of `es` are there.
pub open spec fn compacted_free_end(es: Seq<Entry>) -> int {
    PAGE_SIZE - entries_size(es)
}

/// Dead bytes once the tuple of `e` is dead too.
pub open spec fn dead_after(dead: int, e: Entry) -> int {
    if dead + entry_size(e) <= 65535 {
        dead + entry_size(e)
    } else {
        65535
    }
}

/// Where the free space of a page ends and how many of its bytes are dead.
pub struct Space {
    pub free_end: int,
    pub dead: int,
}

pub open spec fn space(b: Seq<u8>) -> Space {
    Space { free_end: free_end(b) as int, dead: dead_bytes(b) as int }
}

/// The space of a page with these entries, compacted if that is due.
pub open spec fn settle(s: Space, es: Seq<Entry>, percent: int) -> Space {
    if compaction_due(s.free_end, s.dead, percent) {
        Space { free_end: compacted_free_end(es), dead: 0 }
    } else {
        s
    }
}

/// The space of a page that `needed` free bytes are asked of.
pub open spec fn make_room(b: Seq<u8>, percent: int, needed: int) -> Space {
    if free_space(b) < needed {
        settle(space(b), entries(b), percent)
    } else {
        space(b)
    }
}

/// Free bytes that it takes to put `v` under `k`.
pub open spec fn put_needs(es: Seq<Entry>, k: Seq<u8>, v: Seq<u8>) -> int {
    if has_key(es, k) {
        entry_size((k, v))
    } else {
        entry_size((k, v)) + SLOT_SIZE
    }
}

/// Whether the page has room, or can make room, for `v` under `k`.
pub open spec fn put_fits(b: Seq<u8>, percent: int, k: Seq<u8>, v: Seq<u8>) -> bool {
    let needed = put_needs(entries(b), k, v);
    make_room(b, percent, needed).free_end - free_start(b) >= needed
}

/// The space of the page once `v` is under `k`.
pub open spec fn put_space(b: Seq<u8>, percent: int, k: Seq<u8>, v: Seq<u8>) -> Space {
    let es = entries(b);
    let room = make_room(b, percent, put_needs(es, k, v));
    let end = room.free_end - entry_size((k, v));
    if has_key(es, k) {
        settle(
            Space { free_end: end, dead: dead_after(room.dead, es[rank(es, k)]) },
            upsert(es, k, v),
            percent,
        )
    } else {
        Space { free_end: end, dead: room.dead }
    }
}

/// The space of the page once `k`, which it holds, is gone.
pub open spec fn remove_space(b: Seq<u8>, percent: int, k: Seq<u8>) -> Space {
    let es = entries(b);
    settle(
        Space {
            free_end: free_end(b) as int,
            dead: dead_after(dead_bytes(b) as int, es[rank(es, k)]),
        },
        without(es, k),
        percent,
    )
}

/// Space whose bytes are all accounted for.
pub open spec fn space_accounted(s: Space, es: Seq<Entry>) -> bool {
    s.dead == PAGE_SIZE - s.free_end - entries_size(es)
}

/// What a put does to the entries found in the page and to its space.
proof fn lemma_put(b: Seq<u8>, percent: int, k: Seq<u8>, v: Seq<u8>)
    requires
        page_ok(b),
    ensures
        forall|q: Seq<u8>| #[trigger]
            lookup(upsert(entries(b), k, v), q) == if q == k {
                Some(v)
            } else {
                lookup(entries(b), q)
            },
        rank(upsert(entries(b), k, v), k) == rank(entries(b), k),
        accounted(b) ==> {
            &&& space_accounted(put_space(b, percent, k, v), upsert(entries(b), k, v))
            &&& space_accounted(make_room(b, percent, put_needs(entries(b), k, v)), entries(b))
        },
{
    let es = entries(b);
    let r = rank(es, k);
    let n = upsert(es, k, v);
    lemma_rank(es, k);
    lemma_upsert_sorted(es, k, v);
    assert forall|q: Seq<u8>| #[trigger] lookup(n, q) == if q == k {
        Some(v)
    } else {
        lookup(es, q)
    } by {
        law_lookup_after_put(es, k, v, q);
    }
    lemma_at(n, r);
    if has_key(es, k) {
        lemma_entries_size_update(es, r, (k, v));
        lemma_entries_size_remove(es, r);
        lemma_entries_size_bound(es.remove(r));
    } else {
        lemma_entries_size_insert(es, r, (k, v));
    }
}

/// What a removal does to the entries found in the page and to its space.
proof fn lemma_remove(b: Seq<u8>, percent: int, k: Seq<u8>)
    requires
        page_ok(b),
    ensures
        forall|q: Seq<u8>| #[trigger]
            lookup(without(entries(b), k), q) == if q == k {
                None
            } else {
                lookup(entries(b), q)
            },
        accounted(b) && has_key(entries(b), k) ==> space_accounted(
            remove_space(b, percent, k),
            without(entries(b), k),
        ),
{
    let es = entries(b);
    lemma_rank(es, k);
    assert forall|q: Seq<u8>| #[trigger] lookup(without(es, k), q) == if q == k {
        None
    } else {
        lookup(es, q)
    } by {
        law_lookup_after_remove(es, k, q);
    }
    if has_key(es, k) {
        lemma_entries_size_remove(es, rank(es, k));
        lemma_entries_size_bound(es.remove(rank(es, k)));
    }
}

/// Byte `x` belongs to the tuple of slot `j`.
spec fn in_tuple(b: Seq<u8>, j: int, x: int) -> bool {
    slot(b, j) <= x < tuple_end(b, slot(b, j))
}

/// A slotted page of keys and values.
#[derive(Debug)]
pub struct Page {
    data: [u8; PAGE_SIZE],
    dead_tuple_compact_percent: u8,
}

impl View for Page {
    type V = Seq<u8>;

    closed spec fn view(&self) -> Seq<u8> {
        self.data@
    }
}

impl Clone for Page {
    fn clone(&self) -> (r: Self)
        ensures
            r@ == self@,
            r.percent() == self.percent(),
    {
        Page { data: self.data, dead_tuple_compact_percent: self.dead_tuple_compact_percent }
    }
}

impl Page {
    pub const SLOT_SIZE: usize = 2;

    pub const DEFAULT_DEAD_TUPLE_COMPACT_PERCENT: u8 = 75;

    /// The share of dead bytes at which the page is compacted.
    pub closed spec fn percent(&self) -> u8 {
        self.dead_tuple_compact_percent
    }

    /// The page's bytes are well formed.
    pub open spec fn ok(&self) -> bool {
        page_ok(self@)
    }

    /// A page has the length of a page.
    pub proof fn lemma_len(&self)
        ensures
            self@.len() == PAGE_SIZE,
    {
    }

    /// An empty page.
    pub fn new(page_id: u32) -> (p: Self)
        ensures
            p@ == empty_page(page_id),
            p.percent() == 75,
            p.ok(),
            entries(p@) == Seq::<Entry>::empty(),
            crate::layout::page_id(p@) == page_id,
            magic(p@) == PAGE_MAGIC,
            link(p@) == 0,
            free_end(p@) == PAGE_SIZE,
            dead_bytes(p@) == 0,
            unmarked(p@),
            accounted(p@),
    {
        let mut p = Page {
            data: [0u8;PAGE_SIZE],
            dead_tuple_compact_percent: Self::DEFAULT_DEAD_TUPLE_COMPACT_PERCENT,
        };
        let ghost zeros = p.data@;
        assert(zeros =~= Seq::new(PAGE_SIZE as nat, |i: int| 0u8));
        write_u32(&mut p.data, HDR_MAGIC_OFF, PAGE_MAGIC);
        write_u32(&mut p.data, HDR_PAGE_ID_OFF, page_id);
        write_u16(&mut p.data, HDR_FREE_START_OFF, HEADER_SIZE as u16);
        write_u16(&mut p.data, HDR_FREE_END_OFF, PAGE_SIZE as u16);
        assert(entries(p@) =~= Seq::<Entry>::empty());
        p
    }

    /// The page that a buffer holds. The share of dead bytes at which it is compacted is not
    /// part of its bytes and starts at the default.
    pub fn from_bytes(src: &[u8]) -> (p: Self)
        requires
            src@.len() >= PAGE_SIZE,
        ensures
            p@ == src@.take(PAGE_SIZE as int),
            p.percent() == 75,
    {
        let mut p = Page {
            data: [0u8;PAGE_SIZE],
            dead_tuple_compact_percent: Self::DEFAULT_DEAD_TUPLE_COMPACT_PERCENT,
        };
        let head: &[u8] = slice_subrange(src, 0, PAGE_SIZE);
        write_bytes(&mut p.data, 0, head);
        assert(p@ =~= src@.take(PAGE_SIZE as int));
        p
    }

    pub fn set_dead_tuple_compact_percent(&mut self, percent: u8)
        ensures
            final(self)@ == old(self)@,
            final(self).percent() == if percent < 1 {
                1u8
            } else if percent > 100 {
                100u8
            } else {
                percent
            },
    {
        self.dead_tuple_compact_percent = if percent < 1 {
            1
        } else if percent > 100 {
            100
        } else {
            percent
        };
    }

    pub fn slot_count(&self) -> (n: u16)
        ensures
            n == slot_count(self@),
    {
        read_u16(&self.data, HDR_SLOT_CNT_OFF)
    }

    pub fn free_start(&self) -> (n: u16)
        ensures
            n == free_start(self@),
    {
        read_u16(&self.data, HDR_FREE_START_OFF)
    }

    pub fn free_end(&self) -> (n: u16)
        ensures
            n == free_end(self@),
    {
        read_u16(&self.data, HDR_FREE_END_OFF)
    }

    pub fn dead_tuple_bytes(&self) -> (n: u16)
        ensures
            n == dead_bytes(self@),
    {
        read_u16(&self.data, HDR_DEAD_BYTES_OFF)
    }

    fn set_dead_tuple_bytes(&mut self, dead_bytes: u16)
        ensures
            final(self)@ == overwrite(old(self)@, 14, u16_bytes(dead_bytes)),
            crate::layout::dead_bytes(final(self)@) == dead_bytes,
            final(self).percent() == old(self).percent(),
    {
        write_u16(&mut self.data, HDR_DEAD_BYTES_OFF, dead_bytes);
    }

    pub fn next_leaf_page_id(&self) -> (r: Option<u32>)
        ensures
            r == if link(self@) == 0 {
                None
            } else {
                Some(link(self@))
            },
    {
        let v: u32 = read_u32(&self.data, HDR_NEXT_LEAF_PAGE_ID_OFF);
        if v == 0 {
            None
        } else {
            Some(v)
        }
    }

    pub fn set_next_leaf_page_id(&mut self, next: Option<u32>)
        ensures
            final(self)@ == overwrite(
                old(self)@,
                16,
                u32_bytes(match next {
                    Some(v) => v,
                    None => 0,
                }),
            ),
            link(final(self)@) == match next {
                Some(v) => v,
                None => 0,
            },
            final(self).percent() == old(self).percent(),
            old(self).ok() ==> final(self).ok() && entries(final(self)@) == entries(old(self)@),
            old(self).ok() && unmarked(old(self)@) ==> unmarked(final(self)@),
            old(self).ok() && accounted(old(self)@) ==> accounted(final(self)@),
    {
        let v: u32 = match next {
            Some(v) => v,
            None => 0,
        };
        write_u32(&mut self.data, HDR_NEXT_LEAF_PAGE_ID_OFF, v);
        proof {
            if old(self).ok() {
                lemma_page_relabel(old(self)@, self@);
            }
        }
    }

    pub fn page_id(&self) -> (id: u32)
        ensures
            id == page_id(self@),
    {
        read_u32(&self.data, HDR_PAGE_ID_OFF)
    }

    pub fn free_space_bytes(&self) -> (n: usize)
        requires
            free_start(self@) <= free_end(self@),
        ensures
            n == free_space(self@),
    {
        self.free_end() as usize - self.free_start() as usize
    }

    fn tuple_region_used_bytes(&self) -> (n: usize)
        requires
            free_end(self@) <= PAGE_SIZE,
        ensures
            n == PAGE_SIZE - free_end(self@),
    {
        PAGE_SIZE - self.free_end() as usize
    }

    fn tuple_total_len(&self, off: usize) -> (n: usize)
        requires
            off + TUPLE_HEADER_SIZE <= PAGE_SIZE,
        ensures
            off + n == tuple_end(self@, off as int),
    {
        TUPLE_HEADER_SIZE + self.read_tuple_key_len(off) + self.read_tuple_val_len(off)
    }

    fn add_dead_tuple_bytes(&mut self, dead_len: usize)
        ensures
            final(self).percent() == old(self).percent(),
            dead_bytes(final(self)@) == if dead_bytes(old(self)@) + dead_len <= 65535 {
                dead_bytes(old(self)@) + dead_len
            } else {
                65535
            },
            final(self)@ == overwrite(old(self)@, 14, u16_bytes(dead_bytes(final(self)@))),
    {
        let current: usize = self.dead_tuple_bytes() as usize;
        let next: u16 = if dead_len <= u16::MAX as usize - current {
            (current + dead_len) as u16
        } else {
            u16::MAX
        };
        self.set_dead_tuple_bytes(next);
    }

    fn should_compact_dead_tuples(&self) -> (r: bool)
        requires
            free_end(self@) <= PAGE_SIZE,
        ensures
            r == compaction_due(
                free_end(self@) as int,
                dead_bytes(self@) as int,
                self.percent() as int,
            ),
    {
        let used: usize = self.tuple_region_used_bytes();
        if used == 0 {
            return false;
        }
        let percent: usize = self.dead_tuple_compact_percent as usize;
        assert(used * percent <= 8192 * 255) by (nonlinear_arith)
            requires
                used <= 8192,
                percent <= 255,
        ;
        (self.dead_tuple_bytes() as usize) * 100 >= used * percent
    }

    fn slot_byte_off(i: usize) -> (off: usize)
        requires
            i <= 65536,
        ensures
            off == slot_pos(i as int),
    {
        HEADER_SIZE + i * Self::SLOT_SIZE
    }

    pub fn read_slot(&self, i: usize) -> (off: u16)
        requires
            slot_pos(i as int) + SLOT_SIZE <= PAGE_SIZE,
        ensures
            off == slot(self@, i as int),
    {
        read_u16(&self.data, Self::slot_byte_off(i))
    }

    pub fn write_slot(&mut self, i: usize, tuple_off: u16)
        requires
            slot_pos(i as int) + SLOT_SIZE <= PAGE_SIZE,
        ensures
            final(self)@ == overwrite(old(self)@, slot_pos(i as int), u16_bytes(tuple_off)),
            slot(final(self)@, i as int) == tuple_off,
            final(self).percent() == old(self).percent(),
    {
        write_u16(&mut self.data, Self::slot_byte_off(i), tuple_off);
    }

    /// Takes the next slot behind the slot array, or fails when the free space has no room
    /// for it.
    pub fn alloc_slot(&mut self) -> (r: Result<usize, &'static str>)
        ensures
            final(self).percent() == old(self).percent(),
            r is Ok <==> slot_pos(slot_count(old(self)@) + 1) <= free_end(old(self)@),
            match r {
                Ok(i) => {
                    &&& i == slot_count(old(self)@)
                    &&& slot_count(final(self)@) == i + 1
                    &&& free_start(final(self)@) == slot_pos(i + 1)
                    &&& final(self)@ == overwrite(
                        overwrite(old(self)@, 8, u16_bytes((i + 1) as u16)),
                        10,
                        u16_bytes(slot_pos(i + 1) as u16),
                    )
                },
                Err(e) => e@ == "no space for slot"@ && final(self)@ == old(self)@,
            },
    {
        let cnt: usize = self.slot_count() as usize;
        let new_cnt: usize = cnt + 1;
        let new_free_start: usize = HEADER_SIZE + new_cnt * Self::SLOT_SIZE;
        if new_free_start > self.free_end() as usize {
            return Err("no space for slot");
        }
        write_u16(&mut self.data, HDR_SLOT_CNT_OFF, new_cnt as u16);
        write_u16(&mut self.data, HDR_FREE_START_OFF, new_free_start as u16);
        Ok(cnt)
    }

    /// Bytes of a tuple with a key and a value of these lengths.
    pub fn tuple_len(key_len: usize, val_len: usize) -> (n: usize)
        requires
            TUPLE_HEADER_SIZE + key_len + val_len <= usize::MAX,
        ensures
            n == TUPLE_HEADER_SIZE + key_len + val_len,
    {
        TUPLE_HEADER_SIZE + key_len + val_len
    }

    /// Takes `len` bytes from the end of the free space, or fails when it has fewer.
    pub fn alloc_tuple(&mut self, len: usize) -> (r: Result<u16, &'static str>)
        requires
            free_start(old(self)@) <= free_end(old(self)@),
        ensures
            final(self).percent() == old(self).percent(),
            r is Ok <==> len <= free_space(old(self)@),
            match r {
                Ok(off) => {
                    &&& off == free_end(old(self)@) - len
                    &&& free_end(final(self)@) == off
                    &&& final(self)@ == overwrite(old(self)@, 12, u16_bytes(off))
                },
                Err(e) => e@ == "no space for tuple"@ && final(self)@ == old(self)@,
            },
    {
        let fe: usize = self.free_end() as usize;
        let fs: usize = self.free_start() as usize;
        if len > fe - fs {
            return Err("no space for tuple");
        }
        let new_fe: usize = fe - len;
        write_u16(&mut self.data, HDR_FREE_END_OFF, new_fe as u16);
        Ok(new_fe as u16)
    }

    /// Writes a tuple at `off`.
    pub fn write_tuple(&mut self, off: u16, tombstone: u8, key: &[u8], val: &[u8])
        requires
            off + TUPLE_HEADER_SIZE + key@.len() + val@.len() <= PAGE_SIZE,
        ensures
            final(self)@ == overwrite(old(self)@, off as int, tuple_image(tombstone, key@, val@)),
            final(self).percent() == old(self).percent(),
    {
        let o: usize = off as usize;
        self.data[o] = tombstone;
        write_u16(&mut self.data, o + 1, key.len() as u16);
        write_u16(&mut self.data, o + 3, val.len() as u16);
        let ks: usize = o + TUPLE_HEADER_SIZE;
        write_bytes(&mut self.data, ks, key);
        let vs: usize = ks + key.len();
        write_bytes(&mut self.data, vs, val);
        assert(self@ =~= overwrite(old(self)@, off as int, tuple_image(tombstone, key@, val@)));
    }

    pub fn read_key<'a>(&'a self, off: usize) -> (k: &'a [u8])
        requires
            off + TUPLE_HEADER_SIZE <= PAGE_SIZE,
            off + TUPLE_HEADER_SIZE + tuple_key_len(self@, off as int) <= PAGE_SIZE,
        ensures
            k@ == tuple_key(self@, off as int),
    {
        let klen: usize = read_u16(&self.data, off + 1) as usize;
        let start: usize = off + TUPLE_HEADER_SIZE;
        slice_subrange(self.data.as_slice(), start, start + klen)
    }

    pub fn as_bytes(&self) -> (r: &[u8; PAGE_SIZE])
        ensures
            r@ == self@,
    {
        &self.data
    }

    pub fn read_tuple_tombstone(&self, off: usize) -> (t: u8)
        requires
            off < PAGE_SIZE,
        ensures
            t == self@[off as int],
    {
        self.data[off]
    }

    pub fn read_tuple_key_len(&self, off: usize) -> (n: usize)
        requires
            off + 3 <= PAGE_SIZE,
        ensures
            n == tuple_key_len(self@, off as int),
            n <= 65535,
    {
        read_u16(&self.data, off + 1) as usize
    }

    pub fn read_tuple_val_len(&self, off: usize) -> (n: usize)
        requires
            off + TUPLE_HEADER_SIZE <= PAGE_SIZE,
        ensures
            n == tuple_val_len(self@, off as int),
            n <= 65535,
    {
        read_u16(&self.data, off + 3) as usize
    }

    pub fn read_tuple_val<'a>(&'a self, off: usize) -> (v: &'a [u8])
        requires
            off + TUPLE_HEADER_SIZE <= PAGE_SIZE,
            tuple_end(self@, off as int) <= PAGE_SIZE,
        ensures
            v@ == tuple_val(self@, off as int),
    {
        let klen: usize = self.read_tuple_key_len(off);
        let vlen: usize = self.read_tuple_val_len(off);
        let start: usize = off + TUPLE_HEADER_SIZE + klen;
        slice_subrange(self.data.as_slice(), start, start + vlen)
    }

    /// Binary search for `key` in the slots. Ends early, with nothing, at a slot whose key is
    /// not inside the page.
    fn search(&self, key: &[u8]) -> (r: Option<SearchResult>)
        ensures
            match r {
                Some(SearchResult::Found(i)) => probe(self@, key@, 0, slot_count(self@) as int)
                    == Probe::Found(i as int) && key_reads(self@, i as int) && i < slot_count(
                    self@,
                ) && entry(self@, i as int).0 == key@,
                Some(SearchResult::NotFound(i)) => probe(self@, key@, 0, slot_count(self@) as int)
                    == Probe::NotFound(i as int) && i <= slot_count(self@),
                None => probe(self@, key@, 0, slot_count(self@) as int) == Probe::Broken,
            },
    {
        broadcast use group_key_order;

        let mut lo: usize = 0;
        let mut hi: usize = self.slot_count() as usize;
        while lo < hi
            invariant
                lo <= hi <= slot_count(self@),
                probe(self@, key@, lo as int, hi as int) == probe(
                    self@,
                    key@,
                    0,
                    slot_count(self@) as int,
                ),
            decreases hi - lo,
        {
            let mid: usize = (lo + hi) / 2;
            if !self.is_key_inside(mid) {
                return None;
            }
            let tuple_off: usize = self.read_slot(mid) as usize;
            let mid_key: &[u8] = self.read_key(tuple_off);
            match compare(mid_key, key) {
                Order::Equal => {
                    return Some(SearchResult::Found(mid));
                },
                Order::Less => {
                    lo = mid + 1;
                },
                Order::Greater => {
                    hi = mid;
                },
            }
        }
        Some(SearchResult::NotFound(lo))
    }

    /// Whether slot `i` and the key of its tuple are inside the page.
    fn is_key_inside(&self, i: usize) -> (r: bool)
        requires
            i <= 65535,
        ensures
            r == key_reads(self@, i as int),
    {
        if Self::slot_byte_off(i) + Self::SLOT_SIZE > PAGE_SIZE {
            return false;
        }
        let off: usize = self.read_slot(i) as usize;
        off + TUPLE_HEADER_SIZE <= PAGE_SIZE && self.read_tuple_key_len(off) <= PAGE_SIZE
            - TUPLE_HEADER_SIZE - off
    }

    /// Whether slot `i` and its tuple are inside the page.
    pub fn is_tuple_inside(&self, i: usize) -> (r: bool)
        requires
            i <= 65535,
        ensures
            r == tuple_reads(self@, i as int),
    {
        if Self::slot_byte_off(i) + Self::SLOT_SIZE > PAGE_SIZE {
            return false;
        }
        let off: usize = self.read_slot(i) as usize;
        off + TUPLE_HEADER_SIZE <= PAGE_SIZE && self.tuple_total_len(off) <= PAGE_SIZE - off
    }

    /// Where `key` is in the slots, or where it would go.
    fn find_slot(&self, key: &[u8]) -> (r: SearchResult)
        requires
            probe(self@, key@, 0, slot_count(self@) as int) != Probe::Broken,
        ensures
            match r {
                SearchResult::Found(i) => probe(self@, key@, 0, slot_count(self@) as int)
                    == Probe::Found(i as int) && i < slot_count(self@),
                SearchResult::NotFound(i) => probe(self@, key@, 0, slot_count(self@) as int)
                    == Probe::NotFound(i as int) && i <= slot_count(self@),
            },
    {
        match self.search(key) {
            Some(found) => found,
            None => SearchResult::NotFound(0),
        }
    }

    /// The value kept under `key` in a page of any bytes, or nothing where the search or the
    /// tuple runs out of the page. A tuple that is marked as dead is not seen.
    pub fn read(&self, key: &[u8]) -> (r: Option<Option<&[u8]>>)
        ensures
            match r {
                Some(Some(v)) => reading(self@, key@) == Some(Some(v@)),
                Some(None) => reading(self@, key@) == Some(None::<Seq<u8>>),
                None => reading(self@, key@) is None,
            },
    {
        match self.search(key) {
            Some(SearchResult::Found(i)) => {
                let off: usize = self.read_slot(i) as usize;
                if self.read_tuple_tombstone(off) == 1 {
                    Some(None)
                } else if self.is_tuple_inside(i) {
                    Some(Some(self.read_tuple_val(off)))
                } else {
                    None
                }
            },
            Some(SearchResult::NotFound(_)) => Some(None),
            None => None,
        }
    }

    /// The value that the slot of `key` refers to in a page of any bytes, marked as dead or not,
    /// or nothing where the search or the tuple runs out of the page.
    pub fn read_stored(&self, key: &[u8]) -> (r: Option<Option<&[u8]>>)
        ensures
            match r {
                Some(Some(v)) => stored(self@, key@) == Some(Some(v@)),
                Some(None) => stored(self@, key@) == Some(None::<Seq<u8>>),
                None => stored(self@, key@) is None,
            },
    {
        match self.search(key) {
            Some(SearchResult::Found(i)) => if self.is_tuple_inside(i) {
                let off: usize = self.read_slot(i) as usize;
                Some(Some(self.read_tuple_val(off)))
            } else {
                None
            },
            Some(SearchResult::NotFound(_)) => Some(None),
            None => None,
        }
    }

    /// The value kept under `key`. A tuple that is marked as dead is not seen.
    pub fn get(&self, key: &[u8]) -> (r: Option<&[u8]>)
        requires
            reading(self@, key@) is Some,
        ensures
            reading(self@, key@) == Some(
                match r {
                    Some(v) => Some(v@),
                    None => None,
                },
            ),
            readable(self@) ==> seen(self@, key@) == match r {
                Some(v) => Some(v@),
                None => None,
            },
            readable(self@) ==> forall|i: int|
                0 <= i < slot_count(self@) && #[trigger] entry(self@, i).0 == key@ ==> match r {
                    Some(v) => visible(self@, i) && v@ == entry(self@, i).1,
                    None => !visible(self@, i),
                },
            page_ok(self@) ==> lookup(entries(self@), key@) == match r {
                Some(v) => Some(v@),
                None => None,
            },
    {
        proof {
            if page_ok(self@) {
                lemma_page_ok(self@);
            }
            if readable(self@) {
                lemma_readable(self@, key@);
                lemma_rank(entries(self@), key@);
                assert forall|i: int|
                    0 <= i < slot_count(self@) && #[trigger] entry(self@, i).0 == key@ implies i
                    == rank(entries(self@), key@) by {
                    assert(entries(self@)[i] == entry(self@, i));
                    lemma_at(entries(self@), i);
                }
            }
        }
        match self.read(key) {
            Some(v) => v,
            None => None,
        }
    }

    /// Whether slot `slot_idx` can be read, or is not there.
    pub fn can_read_slot(&self, slot_idx: usize) -> (r: bool)
        ensures
            r == (slot_idx >= slot_count(self@) || slot_reads(self@, slot_idx as int)),
    {
        if slot_idx >= self.slot_count() as usize {
            return true;
        }
        if Self::slot_byte_off(slot_idx) + Self::SLOT_SIZE > PAGE_SIZE {
            return false;
        }
        let off: usize = self.read_slot(slot_idx) as usize;
        off < PAGE_SIZE && (self.read_tuple_tombstone(off) == 1 || self.is_tuple_inside(slot_idx))
    }

    /// The entry of a slot, if there is such a slot and its tuple is not marked as dead.
    pub fn get_key_value_at_slot(&self, slot_idx: usize) -> (r: Option<(&[u8], &[u8])>)
        requires
            slot_idx >= slot_count(self@) || slot_reads(self@, slot_idx as int),
        ensures
            match r {
                Some((k, v)) => {
                    &&& slot_idx < entries(self@).len()
                    &&& visible(self@, slot_idx as int)
                    &&& entries(self@)[slot_idx as int] == (k@, v@)
                },
                None => slot_idx >= entries(self@).len() || !visible(self@, slot_idx as int),
            },
            page_ok(self@) ==> (r is None <==> slot_idx >= entries(self@).len()),
    {
        proof {
            if page_ok(self@) {
                lemma_page_ok(self@);
            }
        }
        if slot_idx >= self.slot_count() as usize {
            return None;
        }
        let off: usize = self.read_slot(slot_idx) as usize;
        assert(page_ok(self@) ==> visible(self@, slot_idx as int));
        if self.read_tuple_tombstone(off) == 1 {
            return None;
        }
        Some((self.read_key(off), self.read_tuple_val(off)))
    }

    /// Whether all slots and their tuples are inside the page and the keys ascend.
    pub fn is_readable(&self) -> (r: bool)
        ensures
            r == readable(self@),
    {
        let ghost b = self@;
        let ghost es = entries(b);
        let count: usize = self.slot_count() as usize;
        if Self::slot_byte_off(count) > PAGE_SIZE {
            return false;
        }
        let mut i: usize = 0;
        while i < count
            invariant
                b == self@,
                es == entries(b),
                count == slot_count(b),
                slot_pos(count as int) <= PAGE_SIZE,
                i <= count,
                forall|j: int| 0 <= j < i ==> #[trigger] tuple_in(b, j),
                sorted(es.take(i as int)),
            decreases count - i,
        {
            if !self.is_tuple_inside(i) {
                assert(!tuple_in(b, i as int));
                return false;
            }
            if i > 0 {
                let prev_off: usize = self.read_slot(i - 1) as usize;
                let off: usize = self.read_slot(i) as usize;
                assert(tuple_in(b, i - 1));
                match compare(self.read_key(prev_off), self.read_key(off)) {
                    Order::Less => {},
                    _ => {
                        assert(!key_lt(es[i - 1].0, es[i as int].0)) by {
                            broadcast use group_key_order;

                        }
                        return false;
                    },
                }
            }
            proof {
                broadcast use group_key_order;

                let t = es.take(i + 1);
                assert forall|x: int, y: int| 0 <= x < y < t.len() implies key_lt(
                    #[trigger] t[x].0,
                    #[trigger] t[y].0,
                ) by {
                    let r = es.take(i as int);
                    if y < i {
                        assert(key_lt(r[x].0, r[y].0));
                    } else if x < i - 1 {
                        assert(key_lt(r[x].0, r[i - 1].0));
                        assert(key_lt(es[i - 1].0, es[i as int].0));
                    }
                }
            }
            i += 1;
        }
        assert(es.take(es.len() as int) =~= es);
        true
    }

    /// Adds the entry of a key that the page does not hold, at its rank.
    #[verifier::spinoff_prover]
    #[verifier::rlimit(60)]
    fn insert_entry(&mut self, pos: usize, key: &[u8], val: &[u8])
        requires
            old(self).ok(),
            !has_key(entries(old(self)@), key@),
            pos == rank(entries(old(self)@), key@),
            entry_size((key@, val@)) + SLOT_SIZE <= free_space(old(self)@),
        ensures
            final(self).ok(),
            final(self).percent() == old(self).percent(),
            entries(final(self)@) == upsert(entries(old(self)@), key@, val@),
            free_end(final(self)@) == free_end(old(self)@) - entry_size((key@, val@)),
            dead_bytes(final(self)@) == dead_bytes(old(self)@),
            page_id(final(self)@) == page_id(old(self)@),
            link(final(self)@) == link(old(self)@),
            magic(final(self)@) == magic(old(self)@),
            final(self)@[slot(final(self)@, pos as int)] == 0,
            unmarked(old(self)@) ==> unmarked(final(self)@),
    {
        let ghost b = self@;
        proof {
            lemma_rank(entries(b), key@);
        }
        let len: usize = Self::tuple_len(key.len(), val.len());
        let off: u16 = match self.alloc_tuple(len) {
            Ok(off) => off,
            Err(_) => 0,
        };
        self.write_tuple(off, 0, key, val);
        let cnt: usize = match self.alloc_slot() {
            Ok(cnt) => cnt,
            Err(_) => 0,
        };
        let ghost b1 = self@;
        assert(slot_pos(cnt + 1) <= off);
        assert(b1.subrange(off as int, free_end(b) as int) =~= tuple_image(0, key@, val@));
        let mut i: usize = cnt;
        while i > pos
            invariant
                pos <= i <= cnt,
                slot_pos(cnt + 1) <= PAGE_SIZE,
                b1.len() == PAGE_SIZE,
                self@.len() == PAGE_SIZE,
                self.percent() == old(self).percent(),
                forall|x: int|
                    0 <= x < HEADER_SIZE || slot_pos(cnt + 1) <= x < PAGE_SIZE ==> self@[x]
                        == b1[x],
                forall|j: int| 0 <= j < i ==> #[trigger] slot(self@, j) == slot(b1, j),
                forall|j: int| i < j <= cnt ==> #[trigger] slot(self@, j) == slot(b1, j - 1),
            decreases i - pos,
        {
            let ghost before = self@;
            let v: u16 = self.read_slot(i - 1);
            self.write_slot(i, v);
            proof {
                assert forall|j: int| 0 <= j <= cnt && j != i implies #[trigger] slot(self@, j)
                    == slot(before, j) by {}
            }
            i -= 1;
        }
        let ghost b2 = self@;
        self.write_slot(pos, off);
        proof {
            let c = self@;
            assert forall|x: int| off <= x < PAGE_SIZE implies c[x] == b1[x] by {
                assert(b2[x] == b1[x]);
            }
            assert forall|x: int| 0 <= x < HEADER_SIZE implies c[x] == b1[x] by {
                assert(b2[x] == b1[x]);
            }
            assert(c.subrange(off as int, free_end(b) as int) =~= tuple_image(0, key@, val@));
            assert(header_ok(c));
            assert forall|j: int| 0 <= j <= cnt && j != pos implies #[trigger] slot(c, j) == slot(
                b2,
                j,
            ) by {}
            assert forall|j: int| 0 <= j < pos implies #[trigger] slot(c, j) == slot(b, j) by {
                assert(slot(b1, j) == slot(b, j));
            }
            assert forall|j: int| pos < j <= slot_count(b) implies #[trigger] slot(c, j) == slot(
                b,
                j - 1,
            ) by {
                assert(slot(b1, j - 1) == slot(b, j - 1));
            }
            lemma_page_insert(b, c, pos as int, off as int, key@, val@);
        }
    }

    /// Replaces the entry of slot `i`, whose tuple becomes dead.
    #[verifier::spinoff_prover]
    #[verifier::rlimit(60)]
    fn replace_entry(&mut self, i: usize, key: &[u8], val: &[u8])
        requires
            old(self).ok(),
            i < slot_count(old(self)@),
            entries(old(self)@)[i as int].0 == key@,
            entry_size((key@, val@)) <= free_space(old(self)@),
        ensures
            final(self).ok(),
            final(self).percent() == old(self).percent(),
            entries(final(self)@) == upsert(entries(old(self)@), key@, val@),
            free_end(final(self)@) == free_end(old(self)@) - entry_size((key@, val@)),
            dead_bytes(final(self)@) == dead_after(
                dead_bytes(old(self)@) as int,
                entries(old(self)@)[i as int],
            ),
            page_id(final(self)@) == page_id(old(self)@),
            link(final(self)@) == link(old(self)@),
            magic(final(self)@) == magic(old(self)@),
            final(self)@[slot(final(self)@, i as int)] == 0,
            unmarked(old(self)@) ==> unmarked(final(self)@),
    {
        let ghost b = self@;
        let old_off: usize = self.read_slot(i) as usize;
        assert(tuple_ok(b, i as int));
        let old_len: usize = self.tuple_total_len(old_off);
        self.data[old_off] = 1;
        self.add_dead_tuple_bytes(old_len);
        let len: usize = Self::tuple_len(key.len(), val.len());
        let off: u16 = match self.alloc_tuple(len) {
            Ok(off) => off,
            Err(_) => 0,
        };
        self.write_tuple(off, 0, key, val);
        self.write_slot(i, off);
        proof {
            let c = self@;
            assert(c.subrange(off as int, free_end(b) as int) =~= tuple_image(0, key@, val@));
            assert(header_ok(c));
            lemma_page_update(b, c, i as int, off as int, key@, val@);
        }
    }

    /// Rebuilds the page from its live tuples.
    #[verifier::spinoff_prover]
    #[verifier::rlimit(60)]
    fn compact_live_tuples(&mut self)
        requires
            old(self).ok(),
        ensures
            final(self).ok(),
            final(self).percent() == old(self).percent(),
            entries(final(self)@) == entries(old(self)@),
            free_end(final(self)@) == compacted_free_end(entries(old(self)@)),
            dead_bytes(final(self)@) == 0,
            page_id(final(self)@) == page_id(old(self)@),
            link(final(self)@) == link(old(self)@),
            magic(final(self)@) == PAGE_MAGIC,
            unmarked(final(self)@),
            accounted(final(self)@),
            accounted(old(self)@) ==> free_space(final(self)@) == free_space(old(self)@)
                + dead_bytes(old(self)@),
    {
        let saved_next: Option<u32> = self.next_leaf_page_id();
        let mut compacted = Page::new(self.page_id());
        compacted.set_dead_tuple_compact_percent(self.dead_tuple_compact_percent);
        let count: usize = self.slot_count() as usize;
        let ghost es = entries(self@);
        let mut i: usize = 0;
        assert(es.take(0) =~= Seq::<Entry>::empty());
        while i < count
            invariant
                i <= count,
                *self == *old(self),
                self.ok(),
                es == entries(self@),
                count == es.len(),
                compacted.ok(),
                entries(compacted@) == es.take(i as int),
                free_end(compacted@) == compacted_free_end(es.take(i as int)),
                dead_bytes(compacted@) == 0,
                page_id(compacted@) == page_id(self@),
                link(compacted@) == 0,
                magic(compacted@) == PAGE_MAGIC,
                unmarked(compacted@),
            decreases count - i,
        {
            let off: usize = self.read_slot(i) as usize;
            assert(tuple_ok(self@, i as int));
            if self.read_tuple_tombstone(off) != 1 {
                let k: &[u8] = self.read_key(off);
                let v: &[u8] = self.read_tuple_val(off);
                proof {
                    broadcast use group_key_order;

                    let head = es.take(i as int);
                    assert(es[i as int] == (k@, v@));
                    assert(es.take(i + 1) =~= head.insert(i as int, (k@, v@)));
                    lemma_entries_size_insert(head, i as int, (k@, v@));
                    lemma_entries_size_concat(es.take(i + 1), es.skip(i + 1));
                    lemma_entries_size_bound(es.skip(i + 1));
                    assert(es.take(i + 1) + es.skip(i + 1) =~= es);
                    assert forall|j: int| 0 <= j < head.len() implies key_lt(
                        #[trigger] head[j].0,
                        k@,
                    ) by {
                        assert(key_lt(es[j].0, es[i as int].0));
                    }
                    lemma_rank_unique(head, k@, i as int);
                    lemma_rank(head, k@);
                }
                compacted.insert_entry(i, k, v);
            }
            i += 1;
        }
        assert(es.take(es.len() as int) =~= es);
        compacted.set_next_leaf_page_id(saved_next);
        self.data = compacted.data;
    }

    fn maybe_compact_dead_tuples(&mut self)
        requires
            old(self).ok(),
        ensures
            final(self).ok(),
            final(self).percent() == old(self).percent(),
            entries(final(self)@) == entries(old(self)@),
            page_id(final(self)@) == page_id(old(self)@),
            link(final(self)@) == link(old(self)@),
            if compaction_due(
                free_end(old(self)@) as int,
                dead_bytes(old(self)@) as int,
                old(self).percent() as int,
            ) {
                &&& free_end(final(self)@) == compacted_free_end(entries(old(self)@))
                &&& dead_bytes(final(self)@) == 0
                &&& magic(final(self)@) == PAGE_MAGIC
                &&& unmarked(final(self)@)
            } else {
                final(self)@ == old(self)@
            },
    {
        if self.should_compact_dead_tuples() {
            self.compact_live_tuples();
        }
    }

    /// Puts `val` under `key` and returns the value that was there. The dead tuples are
    /// dropped before, when there is no room otherwise, or after, when they have become
    /// enough. Fails when there is still no room.
    #[verifier::spinoff_prover]
    #[verifier::rlimit(60)]
    pub fn put(&mut self, key: &[u8], val: &[u8]) -> (r: Result<Option<Vec<u8>>, &'static str>)
        requires
            old(self).ok(),
            entry_size((key@, val@)) + SLOT_SIZE <= usize::MAX,
        ensures
            final(self).ok(),
            final(self).percent() == old(self).percent(),
            page_id(final(self)@) == page_id(old(self)@),
            link(final(self)@) == link(old(self)@),
            magic(final(self)@) == magic(old(self)@) || magic(final(self)@) == PAGE_MAGIC,
            unmarked(old(self)@) ==> unmarked(final(self)@),
            accounted(old(self)@) ==> accounted(final(self)@),
            forall|k: Seq<u8>| #[trigger]
                lookup(entries(final(self)@), k) == if r is Ok && k == key@ {
                    Some(val@)
                } else {
                    lookup(entries(old(self)@), k)
                },
            r is Ok <==> put_fits(old(self)@, old(self).percent() as int, key@, val@),
            match r {
                Ok(prev) => {
                    &&& entries(final(self)@) == upsert(entries(old(self)@), key@, val@)
                    &&& final(self)@[slot(
                        final(self)@,
                        rank(entries(final(self)@), key@),
                    )] == 0
                    &&& space(final(self)@) == put_space(
                        old(self)@,
                        old(self).percent() as int,
                        key@,
                        val@,
                    )
                    &&& match prev {
                        Some(v) => lookup(entries(old(self)@), key@) == Some(v@),
                        None => lookup(entries(old(self)@), key@) is None,
                    }
                },
                Err(e) => {
                    &&& e@ == "page full"@
                    &&& entries(final(self)@) == entries(old(self)@)
                    &&& !compaction_due(
                        free_end(old(self)@) as int,
                        dead_bytes(old(self)@) as int,
                        old(self).percent() as int,
                    ) ==> final(self)@ == old(self)@
                    &&& space(final(self)@) == make_room(
                        old(self)@,
                        old(self).percent() as int,
                        put_needs(entries(old(self)@), key@, val@),
                    )
                },
            },
    {
        let tuple_len: usize = Self::tuple_len(key.len(), val.len());
        proof {
            lemma_put(self@, self.percent() as int, key@, val@);
            lemma_page_ok(self@);
            lemma_probe(self@, key@, 0, slot_count(self@) as int);
            lemma_rank(entries(self@), key@);
        }
        match self.find_slot(key) {
            SearchResult::Found(i) => {
                let needed: usize = tuple_len;
                if self.free_space_bytes() < needed {
                    self.maybe_compact_dead_tuples();
                    if self.free_space_bytes() < needed {
                        return Err("page full");
                    }
                }
                let old_off: usize = self.read_slot(i) as usize;
                assert(tuple_ok(self@, i as int));
                let old_val: Vec<u8> = slice_to_vec(self.read_tuple_val(old_off));
                proof {
                    lemma_rank(entries(self@), key@);
                }
                self.replace_entry(i, key, val);
                self.maybe_compact_dead_tuples();
                Ok(Some(old_val))
            },
            SearchResult::NotFound(pos) => {
                let needed: usize = tuple_len + Self::SLOT_SIZE;
                if self.free_space_bytes() < needed {
                    self.maybe_compact_dead_tuples();
                    if self.free_space_bytes() < needed {
                        return Err("page full");
                    }
                }
                self.insert_entry(pos, key, val);
                Ok(None)
            },
        }
    }

    /// Removes `key` and returns its value.
    #[verifier::spinoff_prover]
    #[verifier::rlimit(60)]
    pub fn remove(&mut self, key: &[u8]) -> (r: Option<Vec<u8>>)
        requires
            old(self).ok(),
        ensures
            final(self).ok(),
            final(self).percent() == old(self).percent(),
            page_id(final(self)@) == page_id(old(self)@),
            link(final(self)@) == link(old(self)@),
            magic(final(self)@) == magic(old(self)@) || magic(final(self)@) == PAGE_MAGIC,
            unmarked(old(self)@) ==> unmarked(final(self)@),
            accounted(old(self)@) ==> accounted(final(self)@),
            entries(final(self)@) == without(entries(old(self)@), key@),
            forall|k: Seq<u8>| #[trigger]
                lookup(entries(final(self)@), k) == if k == key@ {
                    None
                } else {
                    lookup(entries(old(self)@), k)
                },
            match r {
                Some(v) => {
                    &&& lookup(entries(old(self)@), key@) == Some(v@)
                    &&& space(final(self)@) == remove_space(
                        old(self)@,
                        old(self).percent() as int,
                        key@,
                    )
                },
                None => {
                    &&& lookup(entries(old(self)@), key@) is None
                    &&& final(self)@ == old(self)@
                },
            },
    {
        proof {
            lemma_remove(self@, self.percent() as int, key@);
            lemma_page_ok(self@);
            lemma_probe(self@, key@, 0, slot_count(self@) as int);
            lemma_rank(entries(self@), key@);
        }
        match self.find_slot(key) {
            SearchResult::Found(i) => {
                let ghost b = self@;
                let off: usize = self.read_slot(i) as usize;
                assert(tuple_ok(b, i as int));
                let old_val: Vec<u8> = slice_to_vec(self.read_tuple_val(off));
                let len: usize = self.tuple_total_len(off);
                self.data[off] = 1;
                self.add_dead_tuple_bytes(len);
                let ghost b1 = self@;
                let cnt: usize = self.slot_count() as usize;
                let mut j: usize = i + 1;
                while j < cnt
                    invariant
                        i < j <= cnt,
                        slot_pos(cnt as int) <= PAGE_SIZE,
                        b1.len() == PAGE_SIZE,
                        self@.len() == PAGE_SIZE,
                        self.percent() == old(self).percent(),
                        forall|x: int|
                            0 <= x < HEADER_SIZE || slot_pos(cnt as int) <= x < PAGE_SIZE
                                ==> self@[x] == b1[x],
                        forall|l: int| 0 <= l < i ==> #[trigger] slot(self@, l) == slot(b1, l),
                        forall|l: int|
                            i <= l < j - 1 ==> #[trigger] slot(self@, l) == slot(b1, l + 1),
                        forall|l: int| j <= l < cnt ==> #[trigger] slot(self@, l) == slot(b1, l),
                    decreases cnt - j,
                {
                    let ghost before = self@;
                    let v: u16 = self.read_slot(j);
                    self.write_slot(j - 1, v);
                    proof {
                        assert forall|l: int| 0 <= l < cnt && l != j - 1 implies #[trigger] slot(
                            self@,
                            l,
                        ) == slot(before, l) by {}
                    }
                    j += 1;
                }
                let ghost b2 = self@;
                let new_cnt: usize = cnt - 1;
                write_u16(&mut self.data, HDR_SLOT_CNT_OFF, new_cnt as u16);
                write_u16(
                    &mut self.data,
                    HDR_FREE_START_OFF,
                    (HEADER_SIZE + new_cnt * Self::SLOT_SIZE) as u16,
                );
                proof {
                    let c = self@;
                    assert forall|x: int|
                        free_end(b) <= x < PAGE_SIZE && x != off implies #[trigger] c[x] == b[x] by {
                        assert(b2[x] == b1[x]);
                    }
                    assert forall|x: int|
                        0 <= x < 8 || 12 <= x < HEADER_SIZE implies #[trigger] c[x] == b1[x] by {
                        assert(b2[x] == b1[x]);
                    }
                    assert(header_ok(c));
                    assert forall|l: int| 0 <= l < cnt implies #[trigger] slot(c, l) == slot(
                        b2,
                        l,
                    ) by {}
                    assert forall|l: int| 0 <= l < cnt implies #[trigger] slot(b1, l) == slot(
                        b,
                        l,
                    ) by {}
                    lemma_page_remove(b, c, i as int);
                    lemma_entry_size(b, i as int);
                }
                self.maybe_compact_dead_tuples();
                Some(old_val)
            },
            SearchResult::NotFound(_) => None,
        }
    }

    /// Whether the page's bytes are well formed.
    #[verifier::spinoff_prover]
    #[verifier::rlimit(60)]
    pub fn is_ok(&self) -> (r: bool)
        ensures
            r == self.ok(),
    {
        let ghost b = self@;
        let ghost es = entries(b);
        let count: usize = self.slot_count() as usize;
        let start: usize = self.free_start() as usize;
        let end: usize = self.free_end() as usize;
        if start != HEADER_SIZE + count * Self::SLOT_SIZE || start > end || end > PAGE_SIZE {
            return false;
        }
        let mut taken: [bool; PAGE_SIZE] = [false;PAGE_SIZE];
        let mut total: usize = 0;
        let mut i: usize = 0;
        assert(es.take(0) =~= Seq::<Entry>::empty());
        while i < count
            invariant
                b == self@,
                es == entries(b),
                header_ok(b),
                count == slot_count(b),
                end == free_end(b),
                i <= count,
                total == entries_size(es.take(i as int)),
                total <= i * PAGE_SIZE,
                forall|j: int| 0 <= j < i ==> #[trigger] tuple_ok(b, j),
                forall|j: int, l: int| 0 <= j < l < i ==> #[trigger] tuples_apart(b, j, l),
                sorted(es.take(i as int)),
                forall|j: int, x: int| 0 <= j < i && #[trigger] in_tuple(b, j, x) ==> taken[x],
                forall|x: int|
                    0 <= x < PAGE_SIZE && #[trigger] taken[x] ==> exists|j: int|
                        0 <= j < i && #[trigger] in_tuple(b, j, x),
            decreases count - i,
        {
            let off: usize = self.read_slot(i) as usize;
            if off < end || off + TUPLE_HEADER_SIZE > PAGE_SIZE {
                assert(!tuple_ok(b, i as int));
                return false;
            }
            let len: usize = self.tuple_total_len(off);
            if len > PAGE_SIZE - off || self.read_tuple_tombstone(off) == 1 {
                assert(!tuple_ok(b, i as int));
                return false;
            }
            assert(tuple_ok(b, i as int));
            if i > 0 {
                let prev_off: usize = self.read_slot(i - 1) as usize;
                assert(tuple_ok(b, i - 1));
                match compare(self.read_key(prev_off), self.read_key(off)) {
                    Order::Less => {},
                    _ => {
                        assert(!key_lt(es[i - 1].0, es[i as int].0));
                        return false;
                    },
                }
            }
            let mut x: usize = off;
            while x < off + len
                invariant
                    b == self@,
                    i < count,
                    count == slot_count(b),
                    off == slot(b, i as int),
                    off + len == tuple_end(b, off as int),
                    off <= x <= off + len <= PAGE_SIZE,
                    forall|j: int| 0 <= j < i ==> #[trigger] tuple_ok(b, j),
                    tuple_ok(b, i as int),
                    forall|j: int, y: int|
                        0 <= j < i && #[trigger] in_tuple(b, j, y) ==> taken[y],
                    forall|y: int| off <= y < x ==> #[trigger] taken[y],
                    forall|j: int, y: int|
                        0 <= j < i && off <= y < x ==> !(#[trigger] in_tuple(b, j, y)),
                    forall|y: int|
                        0 <= y < PAGE_SIZE && #[trigger] taken[y] ==> off <= y < x || exists|j: int|
                            0 <= j < i && #[trigger] in_tuple(b, j, y),
                decreases off + len - x,
            {
                if taken[x] {
                    proof {
                        let j = choose|j: int| 0 <= j < i && #[trigger] in_tuple(b, j, x as int);
                        assert(!tuples_apart(b, j, i as int));
                    }
                    return false;
                }
                let ghost before = taken@;
                taken[x] = true;
                x += 1;
                proof {
                    assert(taken@ == before.update(x - 1, true));
                    assert forall|j: int, y: int|
                        0 <= j < i && #[trigger] in_tuple(b, j, y) implies taken[y] by {
                        assert(tuple_ok(b, j));
                        assert(before[y]);
                    }
                    assert forall|y: int| 0 <= y < PAGE_SIZE && #[trigger] taken[y] implies off <= y
                        < x || exists|j: int| 0 <= j < i && #[trigger] in_tuple(b, j, y) by {
                        assert(y == x - 1 || before[y]);
                    }
                }
            }
            proof {
                broadcast use group_key_order;

                assert forall|j: int| 0 <= j < i implies #[trigger] tuples_apart(b, j, i as int) by {
                    if !tuples_apart(b, j, i as int) {
                        let y = if slot(b, j) < slot(b, i as int) {
                            slot(b, i as int)
                        } else {
                            slot(b, j)
                        };
                        assert(tuple_ok(b, j));
                        assert(in_tuple(b, j, y));
                    }
                }
                let head = es.take(i as int);
                let next = es.take(i + 1);
                assert(next.drop_last() =~= head);
                lemma_entry_size(b, i as int);
                assert forall|j: int, l: int| 0 <= j < l < next.len() implies key_lt(
                    #[trigger] next[j].0,
                    #[trigger] next[l].0,
                ) by {
                    if l < i {
                        assert(key_lt(head[j].0, head[l].0));
                    } else if j < i - 1 {
                        assert(key_lt(head[j].0, head[i - 1].0));
                        assert(key_lt(es[i - 1].0, es[i as int].0));
                    }
                }
                assert forall|y: int| 0 <= y < PAGE_SIZE && #[trigger] taken[y] implies exists|
                    j: int,
                | 0 <= j < i + 1 && #[trigger] in_tuple(b, j, y) by {
                    if off <= y < off + len {
                        assert(in_tuple(b, i as int, y));
                    } else {
                        let j = choose|j: int| 0 <= j < i && #[trigger] in_tuple(b, j, y);
                        assert(in_tuple(b, j, y));
                    }
                }
            }
            total += len;
            i += 1;
        }
        assert(es.take(es.len() as int) =~= es);
        total <= PAGE_SIZE - end
    }

    /// How many slots a search puts at or in front of `key`, or nothing where it runs out of the
    /// page.
    pub fn slots_up_to(&self, key: &[u8]) -> (r: Option<usize>)
        ensures
            match r {
                Some(n) => n <= slot_count(self@) && match probe(
                    self@,
                    key@,
                    0,
                    slot_count(self@) as int,
                ) {
                    Probe::Found(i) => n == i + 1,
                    Probe::NotFound(i) => n == i,
                    Probe::Broken => false,
                },
                None => probe(self@, key@, 0, slot_count(self@) as int) == Probe::Broken,
            },
    {
        match self.search(key) {
            Some(SearchResult::Found(i)) => Some(i + 1),
            Some(SearchResult::NotFound(i)) => Some(i),
            None => None,
        }
    }

    /// Adds an entry behind all others.
    pub fn append_entry(&mut self, key: &[u8], val: &[u8])
        requires
            old(self).ok(),
            !has_key(entries(old(self)@), key@),
            entries(old(self)@).len() == rank(entries(old(self)@), key@),
            entry_size((key@, val@)) + SLOT_SIZE <= free_space(old(self)@),
        ensures
            final(self).ok(),
            final(self).percent() == old(self).percent(),
            entries(final(self)@) == entries(old(self)@).push((key@, val@)),
            free_end(final(self)@) == free_end(old(self)@) - entry_size((key@, val@)),
            dead_bytes(final(self)@) == dead_bytes(old(self)@),
            page_id(final(self)@) == page_id(old(self)@),
            link(final(self)@) == link(old(self)@),
            magic(final(self)@) == magic(old(self)@),
    {
        let pos: usize = self.slot_count() as usize;
        self.insert_entry(pos, key, val);
        assert(entries(self@) =~= entries(old(self)@).push((key@, val@)));
    }
}

} // verus!
