//! How writes to a page's bytes change what the page holds.

use vstd::prelude::*;

use crate::byte::u16_bytes;
use crate::layout::{
    entries, entry, entry_size, free_end, free_start, has_key, header_ok,
    lemma_entries_size_insert, lemma_entries_size_remove, lemma_entries_size_update, lemma_rank,
    lemma_remove_sorted, lemma_upsert_sorted, page_ok, rank, slot, slot_count, tuple_end,
    tuple_image, tuple_key, tuple_key_len, tuple_ok, tuple_val, tuple_val_len, tuples_apart,
    unmarked, upsert, Entry, PAGE_SIZE, TUPLE_HEADER_SIZE,
};

verus! {

/// A tuple whose bytes are the same in two pages is the same tuple.
#[verifier::spinoff_prover]
#[verifier::rlimit(60)]
pub proof fn lemma_tuple_frame(b: Seq<u8>, c: Seq<u8>, off: int)
    requires
        b.len() == PAGE_SIZE,
        c.len() == PAGE_SIZE,
        0 <= off,
        off + TUPLE_HEADER_SIZE <= PAGE_SIZE,
        tuple_end(b, off) <= PAGE_SIZE,
        forall|x: int| off <= x < tuple_end(b, off) ==> #[trigger] c[x] == b[x],
    ensures
        tuple_end(c, off) == tuple_end(b, off),
        tuple_key(c, off) == tuple_key(b, off),
        tuple_val(c, off) == tuple_val(b, off),
        c[off] == b[off],
{
    assert(c[off] == b[off]);
    assert(c[off + 1] == b[off + 1]);
    assert(c[off + 2] == b[off + 2]);
    assert(c[off + 3] == b[off + 3]);
    assert(c[off + 4] == b[off + 4]);
    assert(tuple_key(c, off) =~= tuple_key(b, off));
    assert(tuple_val(c, off) =~= tuple_val(b, off));
}

/// Reading back a tuple gives the entry that was written.
pub proof fn lemma_tuple_image(b: Seq<u8>, off: int, tombstone: u8, k: Seq<u8>, v: Seq<u8>)
    requires
        0 <= off,
        off + entry_size((k, v)) <= b.len(),
        k.len() < 65536,
        v.len() < 65536,
        b.subrange(off, off + entry_size((k, v))) == tuple_image(tombstone, k, v),
    ensures
        b[off] == tombstone,
        tuple_key_len(b, off) == k.len(),
        tuple_val_len(b, off) == v.len(),
        tuple_end(b, off) == off + entry_size((k, v)),
        tuple_key(b, off) == k,
        tuple_val(b, off) == v,
{
    let t = tuple_image(tombstone, k, v);
    let s = b.subrange(off, off + entry_size((k, v)));
    assert(t[0] == s[0] && s[0] == b[off]);
    assert(t[1] == s[1] && s[1] == b[off + 1]);
    assert(t[2] == s[2] && s[2] == b[off + 2]);
    assert(t[3] == s[3] && s[3] == b[off + 3]);
    assert(t[4] == s[4] && s[4] == b[off + 4]);
    assert(t[1] == u16_bytes(k.len() as u16)[0]);
    assert(t[2] == u16_bytes(k.len() as u16)[1]);
    assert(t[3] == u16_bytes(v.len() as u16)[0]);
    assert(t[4] == u16_bytes(v.len() as u16)[1]);
    assert(tuple_key_len(b, off) == k.len());
    assert(tuple_val_len(b, off) == v.len());
    assert(tuple_key(b, off) =~= k) by {
        assert forall|i: int| 0 <= i < k.len() implies tuple_key(b, off)[i] == k[i] by {
            assert(s[5 + i] == t[5 + i]);
        }
    }
    assert(tuple_val(b, off) =~= v) by {
        assert forall|i: int| 0 <= i < v.len() implies tuple_val(b, off)[i] == v[i] by {
            assert(s[5 + k.len() + i] == t[5 + k.len() + i]);
        }
    }
}

/// The size of an entry is that of its tuple.
pub proof fn lemma_entry_size(b: Seq<u8>, i: int)
    requires
        b.len() == PAGE_SIZE,
        tuple_ok(b, i),
    ensures
        slot(b, i) + entry_size(entry(b, i)) == tuple_end(b, slot(b, i)),
{
}

/// A tuple written in front of the others, with a slot for it at the rank of its key, adds
/// its entry.
#[verifier::spinoff_prover]
#[verifier::rlimit(60)]
pub proof fn lemma_page_insert(
    b: Seq<u8>,
    c: Seq<u8>,
    p: int,
    off: int,
    k: Seq<u8>,
    v: Seq<u8>,
)
    requires
        page_ok(b),
        header_ok(c),
        slot_count(c) == slot_count(b) + 1,
        free_end(c) == off,
        off + entry_size((k, v)) == free_end(b),
        c.subrange(off, free_end(b) as int) == tuple_image(0, k, v),
        forall|x: int| free_end(b) <= x < PAGE_SIZE ==> #[trigger] c[x] == b[x],
        !has_key(entries(b), k),
        p == rank(entries(b), k),
        forall|i: int| 0 <= i < p ==> #[trigger] slot(c, i) == slot(b, i),
        slot(c, p) == off,
        forall|i: int| p < i <= slot_count(b) ==> #[trigger] slot(c, i) == slot(b, i - 1),
    ensures
        page_ok(c),
        entries(c) == upsert(entries(b), k, v),
        c[slot(c, p)] == 0,
        unmarked(b) ==> unmarked(c),
{
    let es = entries(b);
    let n = slot_count(b) as int;
    lemma_rank(es, k);
    lemma_tuple_image(c, off, 0, k, v);
    let src = |i: int| if i < p { i } else { i - 1 };
    assert forall|i: int| 0 <= i <= n && i != p implies {
        &&& slot(c, i) == slot(b, src(i))
        &&& tuple_end(c, slot(c, i)) == tuple_end(b, slot(b, src(i)))
        &&& #[trigger] entry(c, i) == es[src(i)]
        &&& c[slot(c, i)] == b[slot(b, src(i))]
        &&& tuple_ok(b, src(i))
    } by {
        assert(tuple_ok(b, src(i)));
        lemma_tuple_frame(b, c, slot(b, src(i)));
        if i > p {
            assert(slot(c, i) == slot(b, i - 1));
        }
    }
    assert(entries(c) =~= es.insert(p, (k, v))) by {
        assert forall|i: int| 0 <= i <= n implies entry(c, i) == es.insert(p, (k, v))[i] by {
            if i != p {
                assert(entry(c, i) == es[src(i)]);
            }
        }
    }
    assert forall|i: int| 0 <= i < slot_count(c) implies #[trigger] tuple_ok(c, i) by {
        if i != p {
            assert(entry(c, i) == es[src(i)]);
        }
    }
    assert forall|i: int, j: int| 0 <= i < j < slot_count(c) implies #[trigger] tuples_apart(
        c,
        i,
        j,
    ) by {
        if i != p {
            assert(entry(c, i) == es[src(i)]);
        }
        if j != p {
            assert(entry(c, j) == es[src(j)]);
        }
        if i != p && j != p {
            assert(tuples_apart(b, src(i), src(j)));
        }
    }
    assert(unmarked(b) ==> unmarked(c)) by {
        if unmarked(b) {
            assert forall|i: int| 0 <= i < slot_count(c) implies c[#[trigger] slot(c, i)] == 0 by {
                if i != p {
                    assert(entry(c, i) == es[src(i)]);
                    assert(b[slot(b, src(i))] == 0);
                }
            }
        }
    }
    lemma_upsert_sorted(es, k, v);
    lemma_entries_size_insert(es, p, (k, v));
}

/// A tuple written in front of the others, to which the slot of its key now refers, replaces
/// the entry of that key. The tombstone of the tuple that it replaces may change.
#[verifier::spinoff_prover]
#[verifier::rlimit(60)]
pub proof fn lemma_page_update(
    b: Seq<u8>,
    c: Seq<u8>,
    p: int,
    off: int,
    k: Seq<u8>,
    v: Seq<u8>,
)
    requires
        page_ok(b),
        header_ok(c),
        slot_count(c) == slot_count(b),
        free_end(c) == off,
        off + entry_size((k, v)) == free_end(b),
        c.subrange(off, free_end(b) as int) == tuple_image(0, k, v),
        0 <= p < slot_count(b),
        entries(b)[p].0 == k,
        forall|x: int|
            free_end(b) <= x < PAGE_SIZE && x != slot(b, p) ==> #[trigger] c[x] == b[x],
        slot(c, p) == off,
        forall|i: int|
            0 <= i < slot_count(b) && i != p ==> #[trigger] slot(c, i) == slot(b, i),
    ensures
        page_ok(c),
        entries(c) == upsert(entries(b), k, v),
        c[slot(c, p)] == 0,
        unmarked(b) ==> unmarked(c),
{
    let es = entries(b);
    let n = slot_count(b) as int;
    lemma_rank(es, k);
    assert(has_key(es, k));
    assert(p == rank(es, k)) by {
        broadcast use crate::key::group_key_order;

        let r = rank(es, k);
        if r < p {
            assert(key_lt_at(es, r, p));
        } else if p < r {
            assert(key_lt_at(es, p, r));
        }
    }
    lemma_tuple_image(c, off, 0, k, v);
    assert(tuple_ok(b, p));
    assert forall|i: int| 0 <= i < n && i != p implies {
        &&& tuple_end(c, slot(c, i)) == tuple_end(b, slot(b, i))
        &&& #[trigger] entry(c, i) == es[i]
        &&& c[slot(c, i)] == b[slot(b, i)]
        &&& slot(c, i) == slot(b, i)
        &&& tuple_ok(b, i)
    } by {
        assert(tuple_ok(b, i));
        if i < p {
            assert(tuples_apart(b, i, p));
        } else {
            assert(tuples_apart(b, p, i));
        }
        lemma_tuple_frame(b, c, slot(b, i));
    }
    assert(entries(c) =~= es.update(p, (k, v))) by {
        assert forall|i: int| 0 <= i < n implies entry(c, i) == es.update(p, (k, v))[i] by {
            if i != p {
                assert(entry(c, i) == es[i]);
            }
        }
    }
    assert forall|i: int| 0 <= i < slot_count(c) implies #[trigger] tuple_ok(c, i) by {
        if i != p {
            assert(entry(c, i) == es[i]);
        }
    }
    assert forall|i: int, j: int| 0 <= i < j < slot_count(c) implies #[trigger] tuples_apart(
        c,
        i,
        j,
    ) by {
        if i != p {
            assert(entry(c, i) == es[i]);
        }
        if j != p {
            assert(entry(c, j) == es[j]);
        }
        if i != p && j != p {
            assert(tuples_apart(b, i, j));
        }
    }
    assert(unmarked(b) ==> unmarked(c)) by {
        if unmarked(b) {
            assert forall|i: int| 0 <= i < slot_count(c) implies c[#[trigger] slot(c, i)] == 0 by {
                if i != p {
                    assert(entry(c, i) == es[i]);
                    assert(b[slot(b, i)] == 0);
                }
            }
        }
    }
    lemma_upsert_sorted(es, k, v);
    lemma_entries_size_update(es, p, (k, v));
}

/// The keys at `i` and `j` are in order.
pub open spec fn key_lt_at(es: Seq<Entry>, i: int, j: int) -> bool {
    crate::key::key_lt(es[i].0, es[j].0)
}

/// Closing the gap of slot `p` drops its entry. The tombstone of its tuple may change.
#[verifier::spinoff_prover]
#[verifier::rlimit(60)]
pub proof fn lemma_page_remove(b: Seq<u8>, c: Seq<u8>, p: int)
    requires
        page_ok(b),
        header_ok(c),
        0 <= p < slot_count(b),
        slot_count(c) == slot_count(b) - 1,
        free_end(c) == free_end(b),
        forall|x: int|
            free_end(b) <= x < PAGE_SIZE && x != slot(b, p) ==> #[trigger] c[x] == b[x],
        forall|i: int| 0 <= i < p ==> #[trigger] slot(c, i) == slot(b, i),
        forall|i: int| p <= i < slot_count(c) ==> #[trigger] slot(c, i) == slot(b, i + 1),
    ensures
        page_ok(c),
        entries(c) == entries(b).remove(p),
        unmarked(b) ==> unmarked(c),
{
    let es = entries(b);
    let n = slot_count(b) as int;
    let src = |i: int| if i < p { i } else { i + 1 };
    assert(tuple_ok(b, p));
    assert forall|i: int| 0 <= i < n - 1 implies {
        &&& slot(c, i) == slot(b, src(i))
        &&& tuple_end(c, slot(c, i)) == tuple_end(b, slot(b, src(i)))
        &&& #[trigger] entry(c, i) == es[src(i)]
        &&& c[slot(c, i)] == b[slot(b, src(i))]
        &&& tuple_ok(b, src(i))
    } by {
        let s = src(i);
        assert(tuple_ok(b, s));
        if s < p {
            assert(tuples_apart(b, s, p));
        } else {
            assert(tuples_apart(b, p, s));
            assert(slot(c, i) == slot(b, i + 1));
        }
        lemma_tuple_frame(b, c, slot(b, s));
    }
    assert(entries(c) =~= es.remove(p)) by {
        assert forall|i: int| 0 <= i < n - 1 implies entry(c, i) == es.remove(p)[i] by {
            assert(entry(c, i) == es[src(i)]);
        }
    }
    assert forall|i: int| 0 <= i < slot_count(c) implies #[trigger] tuple_ok(c, i) by {
        assert(entry(c, i) == es[src(i)]);
    }
    assert forall|i: int, j: int| 0 <= i < j < slot_count(c) implies #[trigger] tuples_apart(
        c,
        i,
        j,
    ) by {
        assert(entry(c, i) == es[src(i)]);
        assert(entry(c, j) == es[src(j)]);
        assert(tuples_apart(b, src(i), src(j)));
    }
    assert(unmarked(b) ==> unmarked(c)) by {
        if unmarked(b) {
            assert forall|i: int| 0 <= i < slot_count(c) implies c[#[trigger] slot(c, i)] == 0 by {
                assert(entry(c, i) == es[src(i)]);
                assert(b[slot(b, src(i))] == 0);
            }
        }
    }
    lemma_remove_sorted(es, p);
    lemma_entries_size_remove(es, p);
    lemma_entry_size(b, p);
}

/// A change of header fields that leaves the slots and the free space alone changes no entry.
#[verifier::spinoff_prover]
#[verifier::rlimit(60)]
pub proof fn lemma_page_relabel(b: Seq<u8>, c: Seq<u8>)
    requires
        page_ok(b),
        c.len() == PAGE_SIZE,
        slot_count(c) == slot_count(b),
        free_start(c) == free_start(b),
        free_end(c) == free_end(b),
        forall|x: int| 20 <= x < PAGE_SIZE ==> #[trigger] c[x] == b[x],
    ensures
        page_ok(c),
        entries(c) == entries(b),
        unmarked(b) ==> unmarked(c),
{
    let n = slot_count(b) as int;
    assert forall|i: int| 0 <= i < n implies {
        &&& #[trigger] slot(c, i) == slot(b, i)
        &&& tuple_end(c, slot(c, i)) == tuple_end(b, slot(b, i))
        &&& entry(c, i) == entry(b, i)
        &&& c[slot(c, i)] == b[slot(b, i)]
        &&& tuple_ok(b, i)
    } by {
        assert(tuple_ok(b, i));
        lemma_tuple_frame(b, c, slot(b, i));
    }
    assert(unmarked(b) ==> unmarked(c)) by {
        if unmarked(b) {
            assert forall|i: int| 0 <= i < slot_count(c) implies c[#[trigger] slot(c, i)] == 0 by {
                assert(slot(c, i) == slot(b, i));
                assert(b[slot(b, i)] == 0);
            }
        }
    }
    assert(entries(c) =~= entries(b)) by {
        assert forall|i: int| 0 <= i < n implies entry(c, i) == entry(b, i) by {
            assert(slot(c, i) == slot(b, i));
        }
    }
    assert forall|i: int| 0 <= i < slot_count(c) implies #[trigger] tuple_ok(c, i) by {
        assert(slot(c, i) == slot(b, i));
    }
    assert forall|i: int, j: int| 0 <= i < j < slot_count(c) implies #[trigger] tuples_apart(
        c,
        i,
        j,
    ) by {
        assert(slot(c, i) == slot(b, i));
        assert(slot(c, j) == slot(b, j));
        assert(tuples_apart(b, i, j));
    }
}

} // verus!
