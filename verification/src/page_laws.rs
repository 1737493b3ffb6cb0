//! What holds of the pages that put and remove work on.

use vstd::prelude::*;

use crate::byte::{u16_bytes, u32_bytes};
use crate::error::Fault;
use crate::internal::{all_separators, internal_ok, separator_ok};
use crate::items::{page_capacity, weight};
use crate::key::{group_key_order, key_lt, law_key_total};
use crate::layout::{
    accounted, dead_bytes, empty_page, entries, entries_size, entry, free_end, free_space,
    free_start, has_key, key_reads, law_lookup_after_put, law_lookup_after_remove, lemma_at,
    lemma_page_ok, lemma_rank, lemma_readable, lemma_remove_sorted, lemma_upsert_sorted, link,
    live, lookup, magic, page_id, page_ok, probe, rank, readable, reading, seen, slot, slot_count,
    slot_reads, sorted, stored, tuple_end, tuple_image, tuple_in, tuple_ok, tuple_reads,
    tuples_apart, upsert, visible, without, Entry, Probe, HEADER_SIZE, PAGE_MAGIC, PAGE_SIZE,
    SLOT_SIZE,
};
use crate::leaf::{entry_fits, leaf_ok, lemma_leaf, removal, takes};
use crate::page::{
    compacted_free_end, make_room, put_fits, put_needs, put_space, remove_space, space, Space,
};
use crate::tree::below;
use crate::tree_read::{early, sweep, Swept};

verus! {

/// A page is its header, its slots, its free space and its tuples, in this order and without
/// a gap, and each slot refers to a tuple behind the free space. The keys ascend from slot to
/// slot, so no key is there twice.
pub proof fn law_page_shape(b: Seq<u8>)
    requires
        page_ok(b),
    ensures
        free_start(b) == HEADER_SIZE + SLOT_SIZE * slot_count(b),
        free_start(b) <= free_end(b) <= PAGE_SIZE,
        forall|i: int|
            0 <= i < slot_count(b) ==> free_end(b) <= #[trigger] slot(b, i) < tuple_end(
                b,
                slot(b, i),
            ) <= PAGE_SIZE,
        forall|i: int, j: int|
            0 <= i < j < slot_count(b) ==> key_lt(
                #[trigger] entries(b)[i].0,
                #[trigger] entries(b)[j].0,
            ),
        forall|i: int, j: int|
            0 <= i < j < slot_count(b) ==> #[trigger] entries(b)[i].0 != #[trigger] entries(
                b,
            )[j].0,
{
    broadcast use group_key_order;

    assert forall|i: int| 0 <= i < slot_count(b) implies free_end(b) <= #[trigger] slot(b, i)
        < tuple_end(b, slot(b, i)) <= PAGE_SIZE by {
        assert(tuple_ok(b, i));
    }
}

/// Every byte of a page with exact accounts is in the header, in a slot, free, in a tuple that
/// a slot refers to, or dead.
pub proof fn law_page_accounts(b: Seq<u8>)
    requires
        page_ok(b),
        accounted(b),
    ensures
        HEADER_SIZE + SLOT_SIZE * slot_count(b) + free_space(b) + entries_size(entries(b))
            + dead_bytes(b) == PAGE_SIZE,
{
}

/// After a put that went through, a lookup in the page finds the new value under its key, and
/// under any other key what it found before: `c` is `b` with `v` under `k`.
pub proof fn law_get_after_put(b: Seq<u8>, c: Seq<u8>, k: Seq<u8>, v: Seq<u8>, q: Seq<u8>)
    requires
        page_ok(b),
        page_ok(c),
        entries(c) == upsert(entries(b), k, v),
    ensures
        seen(c, q) == if q == k {
            Some(v)
        } else {
            seen(b, q)
        },
{
    lemma_page_ok(b);
    lemma_page_ok(c);
    law_lookup_after_put(entries(b), k, v, q);
}

/// After a removal a lookup in the page finds nothing under the key, and under any other key
/// what it found before: `c` is `b` without `k`.
pub proof fn law_get_after_remove(b: Seq<u8>, c: Seq<u8>, k: Seq<u8>, q: Seq<u8>)
    requires
        page_ok(b),
        page_ok(c),
        entries(c) == without(entries(b), k),
    ensures
        seen(c, q) == if q == k {
            None
        } else {
            seen(b, q)
        },
{
    lemma_page_ok(b);
    lemma_page_ok(c);
    law_lookup_after_remove(entries(b), k, q);
}

/// Removing a key that was not in the page before it was put there gives back the value that
/// was put, and leaves the entries that the page had.
pub proof fn law_remove_undoes_put(b: Seq<u8>, k: Seq<u8>, v: Seq<u8>)
    requires
        page_ok(b),
        !has_key(entries(b), k),
    ensures
        lookup(upsert(entries(b), k, v), k) == Some(v),
        without(upsert(entries(b), k, v), k) == entries(b),
{
    let es = entries(b);
    let r = rank(es, k);
    let n = upsert(es, k, v);
    lemma_rank(es, k);
    lemma_upsert_sorted(es, k, v);
    law_lookup_after_put(es, k, v, k);
    assert(n[r].0 == k);
    lemma_at(n, r);
    assert(n.remove(r) =~= es);
}

/// The last of two puts under one key counts.
pub proof fn law_put_overwrites(b: Seq<u8>, k: Seq<u8>, v: Seq<u8>, w: Seq<u8>)
    requires
        page_ok(b),
    ensures
        upsert(upsert(entries(b), k, v), k, w) == upsert(entries(b), k, w),
{
    let es = entries(b);
    let r = rank(es, k);
    let n = upsert(es, k, v);
    lemma_rank(es, k);
    lemma_upsert_sorted(es, k, v);
    assert(n[r].0 == k);
    lemma_at(n, r);
    assert(upsert(n, k, w) =~= upsert(es, k, w));
}

/// A compaction turns exactly the dead bytes into free ones, and the entries and their slots
/// stay: `c` is `b` compacted.
pub proof fn law_compaction(b: Seq<u8>, c: Seq<u8>)
    requires
        page_ok(b),
        page_ok(c),
        accounted(b),
        entries(c) == entries(b),
        space(c) == (Space { free_end: compacted_free_end(entries(b)), dead: 0 }),
    ensures
        slot_count(c) == slot_count(b),
        free_start(c) == free_start(b),
        dead_bytes(c) == 0,
        free_space(c) == free_space(b) + dead_bytes(b),
        accounted(c),
        forall|i: int|
            0 <= i < slot_count(b) ==> visible(b, i) && visible(c, i) && #[trigger] entry(c, i)
                == entry(b, i),
{
    lemma_page_ok(b);
    lemma_page_ok(c);
    assert forall|i: int| 0 <= i < slot_count(b) implies visible(b, i) && visible(c, i)
        && #[trigger] entry(c, i) == entry(b, i) by {
        assert(entries(c)[i] == entry(c, i));
        assert(entries(b)[i] == entry(b, i));
    }
    assert(entries(c).len() == slot_count(c));
    assert(entries(b).len() == slot_count(b));
}

// The bytes of a page.

/// Where the fields of a page's header stand, with their least significant byte first.
pub proof fn law_header_bytes(b: Seq<u8>)
    ensures
        magic(b) == b[0] + 256 * b[1] + 65536 * b[2] + 16777216 * b[3],
        page_id(b) == b[4] + 256 * b[5] + 65536 * b[6] + 16777216 * b[7],
        slot_count(b) == b[8] + 256 * b[9],
        free_start(b) == b[10] + 256 * b[11],
        free_end(b) == b[12] + 256 * b[13],
        dead_bytes(b) == b[14] + 256 * b[15],
        link(b) == b[16] + 256 * b[17] + 65536 * b[18] + 16777216 * b[19],
        free_space(b) == free_end(b) - free_start(b),
{
}

/// Where an entry stands: its slot is the two bytes at `20 + 2 * i` and holds the offset of its
/// tuple. A tuple is a mark, the lengths of its key and of its value in two bytes each, the key
/// and the value. Only a mark of one hides it.
pub proof fn law_entry_bytes(b: Seq<u8>, i: int)
    requires
        0 <= i < slot_count(b),
        tuple_reads(b, i),
        b.len() == 8192,
    ensures
        ({
            let off = b[20 + 2 * i] + 256 * b[21 + 2 * i];
            let klen = b[off + 1] + 256 * b[off + 2];
            let vlen = b[off + 3] + 256 * b[off + 4];
            &&& slot(b, i) == off
            &&& off + 5 + klen + vlen <= 8192
            &&& entries(b)[i].0 == b.subrange(off + 5, off + 5 + klen)
            &&& entries(b)[i].1 == b.subrange(off + 5 + klen, off + 5 + klen + vlen)
            &&& entry(b, i) == entries(b)[i]
            &&& visible(b, i) <==> b[off] != 1
        }),
        entries(b).len() == slot_count(b),
{
    assert(slot(b, i) == b[20 + 2 * i] + 256 * b[21 + 2 * i]);
}

/// A tuple's bytes hold its key and its value behind their lengths.
pub proof fn law_tuple_image(mark: u8, k: Seq<u8>, v: Seq<u8>)
    requires
        k.len() < 65536,
        v.len() < 65536,
    ensures
        ({
            let t = tuple_image(mark, k, v);
            &&& t.len() == 5 + k.len() + v.len()
            &&& t[0] == mark
            &&& t[1] + 256 * t[2] == k.len()
            &&& t[3] + 256 * t[4] == v.len()
            &&& t.subrange(5, 5int + k.len()) == k
            &&& t.subrange(5int + k.len(), 5int + k.len() + v.len()) == v
        }),
{
    let t = tuple_image(mark, k, v);
    assert(t.subrange(5, 5int + k.len()) =~= k);
    assert(t.subrange(5int + k.len(), 5int + k.len() + v.len()) =~= v);
}

/// The bytes of a page that holds nothing: the magic `TUNP`, its id, no slots, the free space from
/// behind the header to the end of the page, nothing dead and no next page.
#[verifier::spinoff_prover]
#[verifier::rlimit(60)]
pub proof fn law_empty_page(id: u32)
    ensures
        ({
            let b = empty_page(id);
            &&& b.len() == 8192
            &&& b[0] == 84 && b[1] == 85 && b[2] == 78 && b[3] == 80
            &&& b[4] + 256 * b[5] + 65536 * b[6] + 16777216 * b[7] == id
            &&& b[8] == 0 && b[9] == 0
            &&& b[10] == 20 && b[11] == 0
            &&& b[12] == 0 && b[13] == 32
            &&& forall|i: int| 14 <= i < 8192 ==> #[trigger] b[i] == 0
        }),
{
    let b = empty_page(id);
    let m = u32_bytes(PAGE_MAGIC);
    let n = u32_bytes(id);
    assert(m[0] == 84 && m[1] == 85 && m[2] == 78 && m[3] == 80);
    assert(b[0] == m[0] && b[1] == m[1] && b[2] == m[2] && b[3] == m[3]);
    assert(b[4] == n[0] && b[5] == n[1] && b[6] == n[2] && b[7] == n[3]);
    let f = u16_bytes(20);
    let e = u16_bytes(8192);
    assert(f[0] == 20 && f[1] == 0);
    assert(e[0] == 0 && e[1] == 32);
    assert(b[10] == f[0] && b[11] == f[1]);
    assert(b[12] == e[0] && b[13] == e[1]);
}

// Entries.

/// Entries are sorted where each key comes before all later ones.
pub proof fn law_sorted(es: Seq<Entry>)
    ensures
        sorted(es) <==> forall|i: int, j: int|
            0 <= i < j < es.len() ==> key_lt(#[trigger] es[i].0, #[trigger] es[j].0),
{
}

/// A key is among sorted entries where some entry has it, and its value is the one that stands
/// with it.
pub proof fn law_lookup(es: Seq<Entry>, k: Seq<u8>, v: Seq<u8>)
    requires
        sorted(es),
    ensures
        has_key(es, k) <==> exists|i: int| 0 <= i < es.len() && #[trigger] es[i].0 == k,
        lookup(es, k) == Some(v) <==> es.contains((k, v)),
        lookup(es, k) is None <==> !has_key(es, k),
        0 <= rank(es, k) <= es.len(),
        forall|i: int| 0 <= i < rank(es, k) ==> key_lt(#[trigger] es[i].0, k),
        forall|i: int| rank(es, k) <= i < es.len() ==> !key_lt(#[trigger] es[i].0, k),
{
    lemma_rank(es, k);
    if has_key(es, k) {
        assert(es[rank(es, k)].0 == k);
        if lookup(es, k) == Some(v) {
            assert(es[rank(es, k)] == (k, v));
        }
    }
    if es.contains((k, v)) {
        let i = choose|i: int| 0 <= i < es.len() && es[i] == (k, v);
        assert(es[i].0 == k);
        lemma_at(es, i);
    }
}

/// Putting a value under a key keeps all entries with other keys, and no others, beside the new
/// one, and keeps them sorted.
pub proof fn law_put_entries(es: Seq<Entry>, k: Seq<u8>, v: Seq<u8>, e: Entry)
    requires
        sorted(es),
    ensures
        upsert(es, k, v).contains(e) <==> e == (k, v) || e.0 != k && es.contains(e),
        sorted(upsert(es, k, v)),
        upsert(es, k, v).len() == es.len() + if has_key(es, k) {
            0int
        } else {
            1int
        },
{
    lemma_upsert_sorted(es, k, v);
    law_lookup_after_put(es, k, v, e.0);
    law_lookup(upsert(es, k, v), e.0, e.1);
    law_lookup(es, e.0, e.1);
    lemma_rank(es, k);
}

/// Removing a key keeps all entries with other keys, and no others, and keeps them sorted.
pub proof fn law_remove_entries(es: Seq<Entry>, k: Seq<u8>, e: Entry)
    requires
        sorted(es),
    ensures
        without(es, k).contains(e) <==> e.0 != k && es.contains(e),
        sorted(without(es, k)),
        without(es, k).len() == es.len() - if has_key(es, k) {
            1int
        } else {
            0int
        },
{
    lemma_rank(es, k);
    if has_key(es, k) {
        lemma_remove_sorted(es, rank(es, k));
    }
    law_lookup_after_remove(es, k, e.0);
    law_lookup(without(es, k), e.0, e.1);
    law_lookup(es, e.0, e.1);
}

/// In a page that can be read the value seen under a key is that of the slot with the key, unless
/// its tuple is marked as dead.
pub proof fn law_seen(b: Seq<u8>, k: Seq<u8>, v: Seq<u8>)
    requires
        readable(b),
    ensures
        seen(b, k) == Some(v) <==> exists|i: int|
            0 <= i < slot_count(b) && #[trigger] entry(b, i) == (k, v) && b[slot(b, i)] != 1,
        reading(b, k) == Some(seen(b, k)),
        live(b).contains((k, v)) <==> seen(b, k) == Some(v),
        sorted(live(b)),
{
    let es = entries(b);
    lemma_rank(es, k);
    lemma_readable(b, k);
    law_lookup(live(b), k, v);
    if exists|i: int|
        0 <= i < slot_count(b) && #[trigger] entry(b, i) == (k, v) && b[slot(b, i)] != 1 {
        let i = choose|i: int|
            0 <= i < slot_count(b) && #[trigger] entry(b, i) == (k, v) && b[slot(b, i)] != 1;
        assert(es[i] == entry(b, i));
        lemma_at(es, i);
    }
    if seen(b, k) == Some(v) {
        let r = rank(es, k);
        assert(es[r] == entry(b, r));
    }
}

// Room in a page.

/// An entry takes five bytes beside its key and its value, and with its slot seven.
pub proof fn law_entry_bytes_taken(es: Seq<Entry>, e: Entry)
    ensures
        entries_size(Seq::<Entry>::empty()) == 0,
        entries_size(es.push(e)) == entries_size(es) + 5 + e.0.len() + e.1.len(),
        weight(Seq::<Entry>::empty()) == 0,
        weight(es.push(e)) == weight(es) + 7 + e.0.len() + e.1.len(),
        page_capacity() == 8172,
{
    assert(es.push(e).drop_last() =~= es);
}

/// A put goes through exactly where the free space has room for the tuple, and for a slot if the
/// key is new, or where it has once the dead bytes are gone. They go when they are at least
/// `percent` percent of the bytes behind the free space.
pub proof fn law_put_room(b: Seq<u8>, percent: int, k: Seq<u8>, v: Seq<u8>)
    ensures
        ({
            let needed = 5 + k.len() + v.len() + if has_key(entries(b), k) {
                0int
            } else {
                2int
            };
            let due = free_end(b) != 8192 && dead_bytes(b) * 100 >= (8192 - free_end(b)) * percent;
            put_fits(b, percent, k, v) <==> {
                ||| free_end(b) - free_start(b) >= needed
                ||| due && 8192 - entries_size(entries(b)) - free_start(b) >= needed
            }
        }),
{
}

/// What a put does to the space of a page that has room for it, or that has once its dead bytes
/// are gone. The new tuple goes to the end of the free space. A tuple that it replaces is dead, and
/// when enough bytes are dead only the tuples of the entries stay.
pub proof fn law_put_space(b: Seq<u8>, percent: int, k: Seq<u8>, v: Seq<u8>)
    requires
        page_ok(b),
    ensures
        ({
            let s = put_space(b, percent, k, v);
            let size = 5 + k.len() + v.len();
            let needed = size + if lookup(entries(b), k) is None {
                2int
            } else {
                0int
            };
            let due = free_end(b) != 8192 && dead_bytes(b) * 100 >= (8192 - free_end(b)) * percent;
            let made = free_end(b) - free_start(b) < needed && due;
            let room = if made {
                8192 - entries_size(entries(b))
            } else {
                free_end(b) as int
            };
            let was_dead = if made {
                0int
            } else {
                dead_bytes(b) as int
            };
            let end = room - size;
            &&& lookup(entries(b), k) is None ==> s.free_end == end && s.dead == was_dead
            &&& lookup(entries(b), k) matches Some(w) ==> {
                let dead = was_dead + 5 + k.len() + w.len();
                let capped = if dead > 65535 {
                    65535
                } else {
                    dead
                };
                if end != 8192 && capped * 100 >= (8192 - end) * percent {
                    s.dead == 0 && s.free_end == 8192 - entries_size(upsert(entries(b), k, v))
                } else {
                    s.dead == capped && s.free_end == end
                }
            }
        }),
{
    lemma_rank(entries(b), k);
}

/// What a full page is left with when a put is refused: its dead bytes go if they are enough, and
/// nothing else changes.
pub proof fn law_refused_space(b: Seq<u8>, percent: int, k: Seq<u8>, v: Seq<u8>)
    requires
        page_ok(b),
        !put_fits(b, percent, k, v),
    ensures
        ({
            let s = make_room(b, percent, put_needs(entries(b), k, v));
            if free_end(b) != 8192 && dead_bytes(b) * 100 >= (8192 - free_end(b)) * percent {
                s.dead == 0 && s.free_end == 8192 - entries_size(entries(b))
            } else {
                s.dead == dead_bytes(b) && s.free_end == free_end(b)
            }
        }),
{
}

/// What a removal does to the space of a page: the tuple is dead, and when enough bytes are dead
/// only the tuples of the other entries stay.
pub proof fn law_remove_space(b: Seq<u8>, percent: int, k: Seq<u8>, w: Seq<u8>)
    requires
        page_ok(b),
        entries(b).contains((k, w)),
    ensures
        ({
            let s = remove_space(b, percent, k);
            let dead = dead_bytes(b) + 5 + k.len() + w.len();
            let capped = if dead > 65535 {
                65535
            } else {
                dead
            };
            if free_end(b) != 8192 && capped * 100 >= (8192 - free_end(b)) * percent {
                s.dead == 0 && s.free_end == 8192 - entries_size(without(entries(b), k))
            } else {
                s.dead == capped && s.free_end == free_end(b)
            }
        }),
{
    law_lookup(entries(b), k, w);
    lemma_rank(entries(b), k);
}

/// The space of a page is what its header says.
pub proof fn law_space(b: Seq<u8>)
    ensures
        space(b).free_end == free_end(b),
        space(b).dead == dead_bytes(b),
{
}

// Pages of any bytes.

/// A search looks at the slot in the middle. It is there if the key is, goes on in front of it or
/// behind it as the key comes before or after, and breaks off where the slot or its key is not
/// inside the page.
pub proof fn law_search_step(b: Seq<u8>, k: Seq<u8>, lo: int, hi: int)
    requires
        0 <= lo <= hi <= 65535,
        b.len() == 8192,
    ensures
        lo == hi ==> probe(b, k, lo, hi) == Probe::NotFound(lo),
        lo < hi ==> {
            let mid = (lo + hi) / 2;
            let off = b[20 + 2 * mid] + 256 * b[21 + 2 * mid];
            let klen = b[off + 1] + 256 * b[off + 2];
            let inside = 22 + 2 * mid <= 8192 && off + 5 <= 8192 && off + 5 + klen <= 8192;
            let key = b.subrange(off + 5, off + 5 + klen);
            &&& !inside ==> probe(b, k, lo, hi) == Probe::Broken
            &&& inside && key == k ==> probe(b, k, lo, hi) == Probe::Found(mid)
            &&& inside && key_lt(key, k) ==> probe(b, k, lo, hi) == probe(b, k, mid + 1, hi)
            &&& inside && key_lt(k, key) ==> probe(b, k, lo, hi) == probe(b, k, lo, mid)
        },
{
    broadcast use group_key_order;

    if lo < hi {
        let mid = (lo + hi) / 2;
        assert(slot(b, mid) == b[20 + 2 * mid] + 256 * b[21 + 2 * mid]);
        law_key_total(entry(b, mid).0, k);
        if key_lt(k, entry(b, mid).0) && key_lt(entry(b, mid).0, k) {
            assert(key_lt(k, k));
        }
    }
}

/// What a lookup in a page gives follows from where the search ends: the value of the slot that
/// has the key, none if its tuple is marked with one, and none if no slot on the way has it.
pub proof fn law_reading(b: Seq<u8>, k: Seq<u8>)
    ensures
        match probe(b, k, 0, slot_count(b) as int) {
            Probe::Found(i) => {
                &&& b[slot(b, i)] == 1 ==> reading(b, k) == Some(None::<Seq<u8>>)
                &&& b[slot(b, i)] != 1 && tuple_reads(b, i) ==> reading(b, k) == Some(
                    Some(entry(b, i).1),
                )
                &&& b[slot(b, i)] != 1 && !tuple_reads(b, i) ==> reading(b, k) is None
                &&& tuple_reads(b, i) ==> stored(b, k) == Some(Some(entry(b, i).1))
            },
            Probe::NotFound(_) => reading(b, k) == Some(None::<Seq<u8>>) && stored(b, k) == Some(
                None::<Seq<u8>>,
            ),
            Probe::Broken => reading(b, k) is None && stored(b, k) is None,
        },
{
}

/// A walk over the slots of a page that can be read comes to the entries in the range whose tuples
/// are not marked as dead, and to no others, in the order of their keys.
pub proof fn law_sweep(b: Seq<u8>, lo: Option<Seq<u8>>, hi: Option<Seq<u8>>, i: int)
    requires
        readable(b),
        0 <= i <= slot_count(b),
    ensures
        match sweep(b, lo, hi, i) {
            Swept::Through(es) => {
                &&& sorted(es)
                &&& forall|e: Entry| #[trigger]
                    es.contains(e) <==> exists|j: int|
                        i <= j < slot_count(b) && b[slot(b, j)] != 1 && e == #[trigger] entry(b, j)
                            && (lo is None || lo->0 == e.0 || key_lt(lo->0, e.0)) && (hi is None
                            || key_lt(e.0, hi->0))
            },
            Swept::Stopped(es) => {
                &&& sorted(es)
                &&& forall|e: Entry| #[trigger]
                    es.contains(e) <==> exists|j: int|
                        i <= j < slot_count(b) && b[slot(b, j)] != 1 && e == #[trigger] entry(b, j)
                            && (lo is None || lo->0 == e.0 || key_lt(lo->0, e.0)) && (hi is None
                            || key_lt(e.0, hi->0))
            },
            Swept::Broken => false,
        },
    decreases slot_count(b) - i,
{
    broadcast use group_key_order;

    let es = entries(b);
    if i < slot_count(b) {
        assert(tuple_in(b, i));
        assert(es[i] == entry(b, i));
        law_sweep(b, lo, hi, i + 1);
        let x = entry(b, i);
        let k = x.0;
        if let Some(l) = lo {
            law_key_total(k, l);
        }
        if let Some(h) = hi {
            law_key_total(k, h);
        }
        let rest = match sweep(b, lo, hi, i + 1) {
            Swept::Through(r) => r,
            Swept::Stopped(r) => r,
            Swept::Broken => Seq::empty(),
        };
        assert forall|j: int| i < j < slot_count(b) implies key_lt(k, (#[trigger] entry(b, j)).0) by {
            assert(es[j] == entry(b, j));
            assert(key_lt(es[i].0, es[j].0));
        }
        if visible(b, i) && !early(k, lo) && below(k, hi) {
            let all = seq![x] + rest;
            assert forall|e: Entry| #[trigger] all.contains(e) <==> e == x || rest.contains(e) by {
                if all.contains(e) {
                    let a = choose|a: int| 0 <= a < all.len() && all[a] == e;
                    if a > 0 {
                        assert(rest[a - 1] == e);
                    }
                }
                if e == x {
                    assert(all[0] == e);
                }
                if rest.contains(e) {
                    let a = choose|a: int| 0 <= a < rest.len() && rest[a] == e;
                    assert(all[a + 1] == e);
                }
            }
            assert forall|a: int, c: int| 0 <= a < c < all.len() implies key_lt(
                #[trigger] all[a].0,
                #[trigger] all[c].0,
            ) by {
                assert(all[c] == rest[c - 1]);
                if a > 0 {
                    assert(key_lt(rest[a - 1].0, rest[c - 1].0));
                } else {
                    assert(rest.contains(rest[c - 1]));
                }
            }
        }
    }
}

/// A page can be read where its slots and the tuples they refer to are inside it, and the keys
/// ascend from slot to slot.
pub proof fn law_readable(b: Seq<u8>)
    ensures
        readable(b) <==> {
            &&& b.len() == 8192
            &&& 20 + 2 * slot_count(b) <= 8192
            &&& forall|i: int|
                0 <= i < slot_count(b) ==> {
                    &&& #[trigger] slot(b, i) + 5 <= 8192
                    &&& slot(b, i) + 5 + b[slot(b, i) + 1] + 256 * b[slot(b, i) + 2] + b[slot(b, i)
                        + 3] + 256 * b[slot(b, i) + 4] <= 8192
                }
            &&& forall|i: int, j: int|
                0 <= i < j < slot_count(b) ==> key_lt(
                    (#[trigger] entries(b)[i]).0,
                    (#[trigger] entries(b)[j]).0,
                )
        },
{
    assert forall|i: int| 0 <= i < slot_count(b) implies (tuple_in(b, i) <==> {
        &&& #[trigger] slot(b, i) + 5 <= 8192
        &&& slot(b, i) + 5 + b[slot(b, i) + 1] + 256 * b[slot(b, i) + 2] + b[slot(b, i) + 3] + 256
            * b[slot(b, i) + 4] <= 8192
    }) by {}
    if readable(b) {
        assert forall|i: int| 0 <= i < slot_count(b) implies {
            &&& #[trigger] slot(b, i) + 5 <= 8192
            &&& slot(b, i) + 5 + b[slot(b, i) + 1] + 256 * b[slot(b, i) + 2] + b[slot(b, i) + 3]
                + 256 * b[slot(b, i) + 4] <= 8192
        } by {
            assert(tuple_in(b, i));
        }
    }
}

/// The tuples of a well-formed page do not share a byte, and none of them is marked as dead.
pub proof fn law_tuples_apart(b: Seq<u8>, i: int, j: int)
    requires
        page_ok(b),
        0 <= i < j < slot_count(b),
    ensures
        tuple_end(b, slot(b, i)) <= slot(b, j) || tuple_end(b, slot(b, j)) <= slot(b, i),
        b[slot(b, i)] != 1,
        b[slot(b, j)] != 1,
        entries_size(entries(b)) <= 8192 - free_end(b),
{
    assert(tuples_apart(b, i, j));
    assert(tuple_ok(b, i));
    assert(tuple_ok(b, j));
}

/// A leaf holds entries that the tree accepts, and an internal page separators with children of
/// four bytes.
pub proof fn law_page_kinds(b: Seq<u8>)
    ensures
        leaf_ok(b) <==> page_ok(b) && forall|i: int|
            0 <= i < entries(b).len() ==> (#[trigger] entries(b)[i]).0.len() <= 1024 && 7 + entries(
                b,
            )[i].0.len() + entries(b)[i].1.len() <= 2048,
        internal_ok(b) <==> page_ok(b) && forall|i: int|
            0 <= i < entries(b).len() ==> (#[trigger] entries(b)[i]).1.len() == 4,
{
    if page_ok(b) && forall|i: int|
        0 <= i < entries(b).len() ==> (#[trigger] entries(b)[i]).0.len() <= 1024 && 7 + entries(
            b,
        )[i].0.len() + entries(b)[i].1.len() <= 2048 {
        assert forall|i: int| 0 <= i < entries(b).len() implies #[trigger] entry_fits(
            entries(b)[i].0,
            entries(b)[i].1,
        ) by {
            assert(entries(b)[i].0.len() <= 1024);
        }
    }
    if leaf_ok(b) {
        assert forall|i: int| 0 <= i < entries(b).len() implies (#[trigger] entries(b)[i]).0.len()
            <= 1024 && 7 + entries(b)[i].0.len() + entries(b)[i].1.len() <= 2048 by {
            assert(entry_fits(entries(b)[i].0, entries(b)[i].1));
        }
    }
    if page_ok(b) && forall|i: int|
        0 <= i < entries(b).len() ==> (#[trigger] entries(b)[i]).1.len() == 4 {
        assert(all_separators(entries(b)));
    }
    if internal_ok(b) {
        assert forall|i: int| 0 <= i < entries(b).len() implies (#[trigger] entries(b)[i]).1.len()
            == 4 by {
            assert(separator_ok(entries(b)[i]));
        }
    }
}

/// A slot and its tuple are inside the page where their last bytes are; a slot whose tuple is
/// marked as dead need only refer into the page.
pub proof fn law_inside(b: Seq<u8>, i: int)
    requires
        0 <= i,
    ensures
        tuple_reads(b, i) <==> 22 + 2 * i <= 8192 && slot(b, i) + 5 <= 8192 && slot(b, i) + 5 + b[slot(
            b,
            i,
        ) + 1] + 256 * b[slot(b, i) + 2] + b[slot(b, i) + 3] + 256 * b[slot(b, i) + 4] <= 8192,
        slot_reads(b, i) <==> 22 + 2 * i <= 8192 && slot(b, i) < 8192 && (b[slot(b, i)] == 1
            || tuple_reads(b, i)),
        key_reads(b, i) <==> 22 + 2 * i <= 8192 && slot(b, i) + 5 <= 8192 && slot(b, i) + 5 + b[slot(
            b,
            i,
        ) + 1] + 256 * b[slot(b, i) + 2] <= 8192,
        slot(b, i) == b[20 + 2 * i] + 256 * b[21 + 2 * i],
{
}

/// What becomes of a leaf that can be read when it is written to: a key that it has is removed, and
/// an entry is taken, where its live entries fit in a page with what is to be in it.
pub proof fn law_leaf_writes(b: Seq<u8>, percent: int, k: Seq<u8>, v: Seq<u8>)
    requires
        readable(b),
    ensures
        entries_size(live(b)) + 2 * live(b).len() <= 8172 ==> removal(b, k) == Ok::<_, Fault>(
            lookup(entries(b), k),
        ),
        !has_key(entries(b), k) ==> removal(b, k) == Ok::<_, Fault>(None::<Seq<u8>>),
        page_ok(b) ==> removal(b, k) == Ok::<_, Fault>(lookup(entries(b), k)),
        page_ok(b) ==> (takes(b, percent, k, v) <==> put_fits(b, percent, k, v) || upsert(
            entries(b),
            k,
            v,
        ).len() < 2),
        !page_ok(b) ==> (takes(b, percent, k, v) <==> entries_size(upsert(live(b), k, v)) + 2
            * upsert(live(b), k, v).len() <= 8172),
{
    lemma_readable(b, k);
    lemma_rank(entries(b), k);
    if page_ok(b) {
        lemma_leaf(b);
    }
}

} // verus!
