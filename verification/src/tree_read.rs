//! What a read of the tree sees when only some of its pages are at hand.

use vstd::prelude::*;

use crate::internal::{child_for, child_index, child_of, internal_ok, lemma_child_for};
use crate::key::{group_key_order, key_le, key_lt, law_empty_key_first, law_key_total};
use crate::layout::{
    entries, entry, lemma_at, lemma_page_ok, lemma_rank, link, lookup, page_ok, rank, reading,
    slot_count, slot_reads, sorted, tuple_ok, visible, Entry,
};
use crate::tree::{
    below, children_own, contents, first_leaf, kid, owns, subtree, top, tree_ok, within, Contents,
    Pages, Spot,
};
use crate::tree_leaves::{leaf_for, leaves, leaves_ok, lemma_leaf_for, lemma_leaves, parts_at};
use crate::tree_proof::{lemma_kid_within, lemma_owns};

verus! {

/// Where the way down to a leaf ends.
pub enum Descent {
    Leaf(u32),
    /// This page is not at hand.
    Missing(u32),
    /// This page does not lead to a child.
    Corrupt(u32),
}

/// The child of an internal page on the way to `k`, or to the leftmost leaf.
pub open spec fn toward(b: Seq<u8>, k: Option<Seq<u8>>) -> u32 {
    match k {
        Some(k) => child_for(b, k)->0,
        None => link(b),
    }
}

/// The page leads to a child on the way to `k`, or to the leftmost leaf.
pub open spec fn leads(b: Seq<u8>, k: Option<Seq<u8>>) -> bool {
    k matches Some(k) ==> child_for(b, k) is Some
}

/// The way down to the leaf for `k`, or to the leftmost leaf. The way to the leftmost leaf needs
/// no separators.
pub open spec fn descend(t: Pages, id: u32, height: nat, k: Option<Seq<u8>>) -> Descent
    decreases height,
{
    if height <= 1 {
        Descent::Leaf(id)
    } else if !t.contains_key(id) {
        Descent::Missing(id)
    } else if !leads(t[id], k) {
        Descent::Corrupt(id)
    } else {
        descend(t, toward(t[id], k), (height - 1) as nat, k)
    }
}

/// The pages at hand are pages of the tree.
pub open spec fn part_of(p: Pages, t: Pages) -> bool {
    forall|x: u32| #[trigger] p.contains_key(x) ==> t.contains_key(x) && t[x] == p[x]
}

/// The way down in a well-formed tree.
pub proof fn lemma_descend(p: Pages, t: Pages, s: Spot, k: Option<Seq<u8>>)
    requires
        subtree(t, s),
        part_of(p, t),
        k matches Some(q) ==> within(q, s),
    ensures
        match descend(p, s.id, s.height, k) {
            Descent::Leaf(l) => {
                &&& l == match k {
                    Some(q) => leaf_for(t, s.id, s.height, q),
                    None => first_leaf(t, s.id, s.height),
                }
                &&& owns(t, s.id, s.height, l)
            },
            Descent::Missing(x) => owns(t, s.id, s.height, x) && !p.contains_key(x),
            Descent::Corrupt(x) => false,
        },
    decreases s.height,
{
    if s.height >= 2 && p.contains_key(s.id) {
        let lm = link(t[s.id]);
        let es = entries(t[s.id]);
        let h = (s.height - 1) as nat;
        let c = match k {
            Some(q) => child_index(es, q),
            None => 0,
        };
        match k {
            Some(q) => {
                lemma_kid_within(t, lm, es, s, q);
                lemma_child_for(t[s.id], q);
            },
            None => {},
        }
        let z = kid(t, lm, es, s, c);
        assert(subtree(t, z));
        lemma_descend(p, t, z, k);
        assert forall|x: u32| #[trigger] owns(t, z.id, h, x) implies owns(t, s.id, s.height, x) by {
            assert(owns(t, child_of(lm, es, c), h, x));
            assert(children_own(t, lm, es, h, x));
            lemma_owns(t, s.id, s.height, x);
        }
    } else {
        lemma_owns(t, s.id, s.height, s.id);
    }
}

/// A way down among fewer pages is the same way, as far as it goes.
pub proof fn lemma_descend_part(p: Pages, t: Pages, id: u32, height: nat, k: Option<Seq<u8>>)
    requires
        part_of(p, t),
    ensures
        match descend(p, id, height, k) {
            Descent::Missing(x) => !p.contains_key(x),
            other => other == descend(t, id, height, k),
        },
    decreases height,
{
    if height > 1 && p.contains_key(id) {
        lemma_descend_part(p, t, toward(p[id], k), (height - 1) as nat, k);
    }
}

/// The page `d` levels down towards `k`.
pub open spec fn stop(t: Pages, id: u32, k: Seq<u8>, d: nat) -> u32
    decreases d,
{
    if d == 0 {
        id
    } else {
        toward(t[stop(t, id, k, (d - 1) as nat)], Some(k))
    }
}

/// The ids of the internal pages on the way down to the leaf for `k`.
pub open spec fn trail(t: Pages, id: u32, height: nat, k: Seq<u8>, path: Seq<u32>) -> bool {
    &&& path.len() == height - 1
    &&& forall|d: int|
        0 <= d < path.len() ==> {
            &&& #[trigger] path[d] == stop(t, id, k, d as nat)
            &&& t.contains_key(path[d])
            &&& leads(t[path[d]], Some(k))
        }
}

/// A way down that starts with `d` pages of separators.
pub proof fn lemma_descend_from(t: Pages, id: u32, height: nat, k: Seq<u8>, d: nat)
    requires
        d < height,
        forall|j: nat| j < d ==> t.contains_key(#[trigger] stop(t, id, k, j)) && leads(
            t[stop(t, id, k, j)],
            Some(k),
        ),
    ensures
        descend(t, id, height, Some(k)) == descend(
            t,
            stop(t, id, k, d),
            (height - d) as nat,
            Some(k),
        ),
    decreases d,
{
    if d > 0 {
        lemma_descend_from(t, id, height, k, (d - 1) as nat);
        let x = stop(t, id, k, (d - 1) as nat);
        assert(t.contains_key(x));
    }
}

/// The way down ends in the leaf that is responsible for `k`.
pub proof fn lemma_stop_leaf(t: Pages, id: u32, height: nat, k: Seq<u8>, d: nat)
    requires
        d < height,
        forall|j: nat| j < d ==> internal_ok(t[#[trigger] stop(t, id, k, j)]),
    ensures
        leaf_for(t, id, height, k) == leaf_for(t, stop(t, id, k, d), (height - d) as nat, k),
    decreases d,
{
    if d > 0 {
        lemma_stop_leaf(t, id, height, k, (d - 1) as nat);
        lemma_child_for(t[stop(t, id, k, (d - 1) as nat)], k);
    }
}

/// What a lookup comes to.
pub enum Sought {
    Found(Option<Seq<u8>>),
    /// This page is not at hand.
    Missing(u32),
    /// This page does not lead to a child.
    Corrupt(u32),
    /// This leaf cannot be read where the lookup leads.
    Unreadable(u32),
}

/// What a lookup of `k` comes to: the way down, then the leaf.
pub open spec fn sought(t: Pages, root: u32, height: nat, k: Seq<u8>) -> Sought {
    if height == 0 {
        Sought::Found(None)
    } else {
        match descend(t, root, height, Some(k)) {
            Descent::Leaf(l) => if t.contains_key(l) {
                match reading(t[l], k) {
                    Some(v) => Sought::Found(v),
                    None => Sought::Unreadable(l),
                }
            } else {
                Sought::Missing(l)
            },
            Descent::Missing(x) => Sought::Missing(x),
            Descent::Corrupt(x) => Sought::Corrupt(x),
        }
    }
}

/// The value under `k`, if there is one.
pub open spec fn value_of(c: Contents, k: Seq<u8>) -> Option<Seq<u8>> {
    if c.contains_key(k) {
        Some(c[k])
    } else {
        None
    }
}

/// A lookup in a well-formed tree finds what the tree holds, or lacks a page of the tree.
pub proof fn lemma_sought(
    p: Pages,
    t: Pages,
    root: u32,
    height: nat,
    num_pages: int,
    k: Seq<u8>,
)
    requires
        tree_ok(t, root, height, num_pages),
        part_of(p, t),
    ensures
        match sought(p, root, height, k) {
            Sought::Found(v) => v == value_of(contents(t, root, height), k),
            Sought::Missing(x) => owns(t, root, height, x) && !p.contains_key(x),
            Sought::Corrupt(x) => false,
            Sought::Unreadable(x) => false,
        },
{
    if height > 0 {
        let s = top(root, height);
        law_empty_key_first(k);
        lemma_descend(p, t, s, Some(k));
        lemma_leaf_for(t, s, k);
        lemma_leaves(t, s);
        let l = leaves(t, root, height);
        let i = choose|i: int|
            #[trigger] parts_at(t, l, i, k) && l[i] == leaf_for(t, root, height, k);
        let b = t[l[i]];
        lemma_page_ok(b);
        assert(reading(b, k) == Some(lookup(entries(b), k)));
    }
}

// Scans.

/// `k` is in the range from `lo` up to but without `hi`.
pub open spec fn in_range(k: Seq<u8>, lo: Option<Seq<u8>>, hi: Option<Seq<u8>>) -> bool {
    (lo matches Some(l) ==> key_le(l, k)) && below(k, hi)
}

/// A range starts with its lower bound and ends in front of its upper bound; a bound that is not
/// given leaves it open.
pub proof fn law_half_open_range(k: Seq<u8>, lo: Option<Seq<u8>>, hi: Option<Seq<u8>>)
    ensures
        in_range(k, None, None),
        lo matches Some(l) ==> (in_range(k, lo, None) <==> l == k || key_lt(l, k)),
        lo matches Some(l) ==> in_range(l, lo, None),
        hi matches Some(h) ==> (in_range(k, None, hi) <==> key_lt(k, h)),
        hi matches Some(h) ==> !in_range(h, lo, hi),
        in_range(k, lo, hi) <==> in_range(k, lo, None) && in_range(k, None, hi),
        in_range(k, lo, hi) <==> (lo is None || lo->0 == k || key_lt(lo->0, k)) && (hi is None
            || key_lt(k, hi->0)),
{
    broadcast use group_key_order;

}

/// The entries with keys in the range.
pub open spec fn picked(es: Seq<Entry>, lo: Option<Seq<u8>>, hi: Option<Seq<u8>>) -> Seq<Entry>
    decreases es.len(),
{
    if es.len() == 0 {
        Seq::empty()
    } else if in_range(es.last().0, lo, hi) {
        picked(es.drop_last(), lo, hi).push(es.last())
    } else {
        picked(es.drop_last(), lo, hi)
    }
}

/// Some key is at or behind the end of the range.
pub open spec fn past(es: Seq<Entry>, hi: Option<Seq<u8>>) -> bool {
    exists|i: int| 0 <= i < es.len() && !below((#[trigger] es[i]).0, hi)
}

/// What a walk over the slots of a leaf comes to.
pub enum Swept {
    /// These entries, and the end of the slots.
    Through(Seq<Entry>),
    /// These entries, and a key at or behind the end of the range.
    Stopped(Seq<Entry>),
    /// A slot that cannot be read.
    Broken,
}

/// `es` in front of what the walk comes to.
pub open spec fn joined(es: Seq<Entry>, w: Swept) -> Swept {
    match w {
        Swept::Through(more) => Swept::Through(es + more),
        Swept::Stopped(more) => Swept::Stopped(es + more),
        Swept::Broken => Swept::Broken,
    }
}

/// `k` comes in front of the range.
pub open spec fn early(k: Seq<u8>, lo: Option<Seq<u8>>) -> bool {
    lo matches Some(l) && key_lt(k, l)
}

/// The entries with keys in the range, from slot `i` on: tuples that are marked as dead and keys
/// in front of the range are passed over, and the first other key at or behind the end of the
/// range ends the walk.
pub open spec fn sweep(b: Seq<u8>, lo: Option<Seq<u8>>, hi: Option<Seq<u8>>, i: int) -> Swept
    decreases slot_count(b) - i,
{
    if i >= slot_count(b) {
        Swept::Through(Seq::empty())
    } else if !slot_reads(b, i) {
        Swept::Broken
    } else if !visible(b, i) || early(entry(b, i).0, lo) {
        sweep(b, lo, hi, i + 1)
    } else if !below(entry(b, i).0, hi) {
        Swept::Stopped(Seq::empty())
    } else {
        joined(seq![entry(b, i)], sweep(b, lo, hi, i + 1))
    }
}

/// The first entry of several is picked, or not, in front of the others.
proof fn lemma_picked_front(es: Seq<Entry>, lo: Option<Seq<u8>>, hi: Option<Seq<u8>>)
    requires
        es.len() > 0,
    ensures
        picked(es, lo, hi) == if in_range(es[0].0, lo, hi) {
            seq![es[0]] + picked(es.skip(1), lo, hi)
        } else {
            picked(es.skip(1), lo, hi)
        },
    decreases es.len(),
{
    let r = es.drop_last();
    if es.len() == 1 {
        assert(es.skip(1) =~= Seq::<Entry>::empty());
        assert(r =~= Seq::<Entry>::empty());
        assert(picked(es, lo, hi) =~= if in_range(es[0].0, lo, hi) {
            seq![es[0]] + picked(es.skip(1), lo, hi)
        } else {
            picked(es.skip(1), lo, hi)
        });
    } else {
        lemma_picked_front(r, lo, hi);
        assert(es.skip(1).drop_last() =~= r.skip(1));
        assert(es.skip(1).last() == es.last());
        assert(picked(es, lo, hi) =~= if in_range(es[0].0, lo, hi) {
            seq![es[0]] + picked(es.skip(1), lo, hi)
        } else {
            picked(es.skip(1), lo, hi)
        });
    }
}

/// In a well-formed page the walk comes to all entries in the range.
pub proof fn lemma_sweep(b: Seq<u8>, lo: Option<Seq<u8>>, hi: Option<Seq<u8>>, i: int)
    requires
        page_ok(b),
        0 <= i <= slot_count(b),
    ensures
        match sweep(b, lo, hi, i) {
            Swept::Through(es) => es == picked(entries(b).skip(i), lo, hi),
            Swept::Stopped(es) => es == picked(entries(b).skip(i), lo, hi) && past(
                entries(b),
                hi,
            ),
            Swept::Broken => false,
        },
    decreases slot_count(b) - i,
{
    broadcast use group_key_order;

    let es = entries(b);
    let s = es.skip(i);
    if i < slot_count(b) {
        assert(tuple_ok(b, i));
        assert(es[i] == entry(b, i));
        lemma_sweep(b, lo, hi, i + 1);
        lemma_picked_front(s, lo, hi);
        assert(s.skip(1) =~= es.skip(i + 1));
        let k = es[i].0;
        if let Some(l) = lo {
            law_key_total(k, l);
        }
        if !early(k, lo) && !below(k, hi) {
            assert forall|x: int, y: int| 0 <= x < y < s.len() implies key_lt(
                #[trigger] s[x].0,
                #[trigger] s[y].0,
            ) by {
                assert(key_lt(es[i + x].0, es[i + y].0));
            }
            lemma_picked_past(s, lo, hi, 0);
            assert(s.take(0) =~= Seq::<Entry>::empty());
        }
    } else {
        assert(s =~= Seq::<Entry>::empty());
    }
}

/// What a walk along the chain of leaves comes to.
pub enum Run {
    Done(Seq<Entry>),
    /// This page is not at hand.
    Missing(u32),
    /// This page does not lead to a child.
    Corrupt(u32),
    /// This leaf cannot be read as far as the walk goes.
    Unreadable(u32),
    /// The chain is longer than it may be.
    Endless,
}

/// `es` in front of what the walk comes to.
pub open spec fn prepend(es: Seq<Entry>, r: Run) -> Run {
    match r {
        Run::Done(more) => Run::Done(es + more),
        other => other,
    }
}

/// The entries with keys in the range, from leaf `id` along the chain, over `steps` leaves at
/// most.
pub open spec fn run(
    t: Pages,
    id: u32,
    lo: Option<Seq<u8>>,
    hi: Option<Seq<u8>>,
    steps: nat,
) -> Run
    decreases steps,
{
    if steps == 0 {
        Run::Endless
    } else if !t.contains_key(id) {
        Run::Missing(id)
    } else {
        match sweep(t[id], lo, hi, 0) {
            Swept::Through(es) => if link(t[id]) == 0 {
                Run::Done(es)
            } else {
                prepend(es, run(t, link(t[id]), lo, hi, (steps - 1) as nat))
            },
            Swept::Stopped(es) => Run::Done(es),
            Swept::Broken => Run::Unreadable(id),
        }
    }
}

/// What a scan comes to: the way down to the first leaf, then the walk along the leaves.
pub open spec fn scanned(
    t: Pages,
    root: u32,
    height: nat,
    lo: Option<Seq<u8>>,
    hi: Option<Seq<u8>>,
    steps: nat,
) -> Run {
    if height == 0 {
        Run::Done(Seq::empty())
    } else {
        match descend(t, root, height, lo) {
            Descent::Leaf(l) => run(t, l, lo, hi, steps),
            Descent::Missing(x) => Run::Missing(x),
            Descent::Corrupt(x) => Run::Corrupt(x),
        }
    }
}

/// The entries picked are those in the range, in their order.
pub proof fn lemma_picked(es: Seq<Entry>, lo: Option<Seq<u8>>, hi: Option<Seq<u8>>)
    requires
        sorted(es),
    ensures
        sorted(picked(es, lo, hi)),
        forall|e: Entry|
            #[trigger] picked(es, lo, hi).contains(e) <==> es.contains(e) && in_range(e.0, lo, hi),
    decreases es.len(),
{
    broadcast use group_key_order;

    let ps = picked(es, lo, hi);
    if es.len() > 0 {
        let r = es.drop_last();
        let last = es.last();
        lemma_picked(r, lo, hi);
        let rs = picked(r, lo, hi);
        assert forall|e: Entry| #[trigger] ps.contains(e) <==> es.contains(e) && in_range(
            e.0,
            lo,
            hi,
        ) by {
            if r.contains(e) {
                let i = choose|i: int| 0 <= i < r.len() && r[i] == e;
                assert(es[i] == e);
            }
            if es.contains(e) {
                let i = choose|i: int| 0 <= i < es.len() && es[i] == e;
                if i < r.len() {
                    assert(r[i] == e);
                }
                assert(r.contains(e) || e == last);
            }
            if in_range(last.0, lo, hi) {
                if rs.contains(e) {
                    let i = choose|i: int| 0 <= i < rs.len() && rs[i] == e;
                    assert(ps[i] == e);
                }
                if ps.contains(e) {
                    let i = choose|i: int| 0 <= i < ps.len() && ps[i] == e;
                    if i < rs.len() {
                        assert(rs[i] == e);
                    }
                }
                assert(ps[ps.len() - 1] == last);
            }
            assert(es[es.len() - 1] == last);
        }
        if in_range(last.0, lo, hi) {
            assert forall|i: int, j: int| 0 <= i < j < ps.len() implies key_lt(
                #[trigger] ps[i].0,
                #[trigger] ps[j].0,
            ) by {
                if j == rs.len() {
                    assert(rs.contains(rs[i]));
                    let a = choose|a: int| 0 <= a < r.len() && r[a] == rs[i];
                    assert(key_lt(es[a].0, es[es.len() - 1].0));
                } else {
                    assert(key_lt(rs[i].0, rs[j].0));
                }
            }
        }
    }
}

/// From the first key at or behind the end of the range on, nothing is picked.
pub proof fn lemma_picked_past(
    es: Seq<Entry>,
    lo: Option<Seq<u8>>,
    hi: Option<Seq<u8>>,
    i: int,
)
    requires
        sorted(es),
        0 <= i < es.len(),
        !below(es[i].0, hi),
    ensures
        past(es, hi),
        picked(es, lo, hi) == picked(es.take(i), lo, hi),
    decreases es.len(),
{
    broadcast use group_key_order;

    let r = es.drop_last();
    if i == es.len() - 1 {
        assert(es.take(i) =~= r);
    } else {
        assert(key_lt(es[i].0, es.last().0));
        lemma_picked_past(r, lo, hi, i);
        assert(r.take(i) =~= es.take(i));
    }
}

/// Entry `e` is in one of the leaves from `i` on.
pub open spec fn from_leaf(t: Pages, l: Seq<u32>, i: int, e: Entry) -> bool {
    exists|j: int| i <= j < l.len() && (#[trigger] entries(t[l[j]])).contains(e)
}

/// The walk along the leaves of a tree comes to their entries in the range.
#[verifier::spinoff_prover]
#[verifier::rlimit(60)]
proof fn lemma_run(
    p: Pages,
    t: Pages,
    s: Spot,
    l: Seq<u32>,
    i: int,
    lo: Option<Seq<u8>>,
    hi: Option<Seq<u8>>,
    steps: nat,
)
    requires
        s.next == 0,
        leaves_ok(t, s, l),
        0 <= i < l.len(),
        steps >= l.len() - i,
        part_of(p, t),
        forall|j: int| 0 <= j < l.len() ==> #[trigger] l[j] != 0,
    ensures
        match run(p, l[i], lo, hi, steps) {
            Run::Done(out) => {
                &&& sorted(out)
                &&& forall|e: Entry|
                    #[trigger] out.contains(e) <==> from_leaf(t, l, i, e) && in_range(e.0, lo, hi)
            },
            Run::Missing(x) => owns(t, s.id, s.height, x) && !p.contains_key(x),
            Run::Corrupt(_) => false,
            Run::Unreadable(_) => false,
            Run::Endless => false,
        },
    decreases l.len() - i,
{
    broadcast use group_key_order;

    if p.contains_key(l[i]) {
        let es = entries(t[l[i]]);
        assert(t[l[i]] == p[l[i]]);
        lemma_picked(es, lo, hi);
        lemma_sweep(t[l[i]], lo, hi, 0);
        assert(es.skip(0) =~= es);
        let ps = picked(es, lo, hi);
        let stopped = sweep(t[l[i]], lo, hi, 0) is Stopped;
        let next = link(t[l[i]]);
        assert(next == if i + 1 < l.len() {
            l[i + 1]
        } else {
            0
        });
        if stopped || next == 0 {
            assert forall|e: Entry| #[trigger] ps.contains(e) <==> from_leaf(t, l, i, e) && in_range(
                e.0,
                lo,
                hi,
            ) by {
                if ps.contains(e) {
                    assert(entries(t[l[i]]).contains(e));
                }
                if from_leaf(t, l, i, e) && in_range(e.0, lo, hi) {
                    let j = choose|j: int| i <= j < l.len() && (#[trigger] entries(t[l[j]])).contains(
                        e,
                    );
                    if j > i {
                        let a = choose|a: int| 0 <= a < es.len() && !below((#[trigger] es[a]).0, hi);
                        let b = choose|b: int|
                            0 <= b < entries(t[l[j]]).len() && entries(t[l[j]])[b] == e;
                        assert(key_lt(entries(t[l[i]])[a].0, entries(t[l[j]])[b].0));
                    }
                }
            }
        } else {
            lemma_run(p, t, s, l, i + 1, lo, hi, (steps - 1) as nat);
            match run(p, next, lo, hi, (steps - 1) as nat) {
                Run::Done(more) => {
                    let out = ps + more;
                    assert forall|a: int, b: int| 0 <= a < b < out.len() implies key_lt(
                        #[trigger] out[a].0,
                        #[trigger] out[b].0,
                    ) by {
                        if b < ps.len() {
                            assert(key_lt(ps[a].0, ps[b].0));
                        } else if a >= ps.len() {
                            assert(key_lt(more[a - ps.len()].0, more[b - ps.len()].0));
                        } else {
                            let e = out[a];
                            let f = out[b];
                            assert(ps[a] == e);
                            assert(more[b - ps.len()] == f);
                            assert(ps.contains(e) && more.contains(f));
                            let x = choose|x: int| 0 <= x < es.len() && es[x] == e;
                            let j = choose|j: int|
                                i + 1 <= j < l.len() && (#[trigger] entries(t[l[j]])).contains(f);
                            let y = choose|y: int|
                                0 <= y < entries(t[l[j]]).len() && entries(t[l[j]])[y] == f;
                            assert(key_lt(entries(t[l[i]])[x].0, entries(t[l[j]])[y].0));
                        }
                    }
                    assert forall|e: Entry| #[trigger] out.contains(e) <==> from_leaf(t, l, i, e)
                        && in_range(e.0, lo, hi) by {
                        if out.contains(e) {
                            let a = choose|a: int| 0 <= a < out.len() && out[a] == e;
                            if a < ps.len() {
                                assert(ps[a] == e);
                                assert(ps.contains(e));
                                assert(entries(t[l[i]]).contains(e));
                            } else {
                                assert(more[a - ps.len()] == e);
                                assert(more.contains(e));
                                let j = choose|j: int|
                                    i + 1 <= j < l.len() && (#[trigger] entries(t[l[j]])).contains(e);
                                assert(entries(t[l[j]]).contains(e));
                            }
                        }
                        if from_leaf(t, l, i, e) && in_range(e.0, lo, hi) {
                            let j = choose|j: int|
                                i <= j < l.len() && (#[trigger] entries(t[l[j]])).contains(e);
                            if j == i {
                                assert(ps.contains(e));
                                let a = choose|a: int| 0 <= a < ps.len() && ps[a] == e;
                                assert(out[a] == e);
                            } else {
                                assert(from_leaf(t, l, i + 1, e));
                                assert(more.contains(e));
                                let a = choose|a: int| 0 <= a < more.len() && more[a] == e;
                                assert(out[ps.len() + a] == e);
                            }
                        }
                    }
                },
                _ => {},
            }
        }
    }
}

/// A tree has fewer leaves than pages.
proof fn lemma_leaf_count(t: Pages, root: u32, height: nat, num_pages: int)
    requires
        height >= 1,
        tree_ok(t, root, height, num_pages),
    ensures
        leaves(t, root, height).len() < num_pages,
        forall|i: int|
            0 <= i < leaves(t, root, height).len() ==> #[trigger] leaves(t, root, height)[i] != 0,
{
    let l = leaves(t, root, height);
    lemma_leaves(t, top(root, height));
    let ids = l.map_values(|x: u32| x as int);
    assert(ids.no_duplicates()) by {
        assert forall|i: int, j: int| 0 <= i < ids.len() && 0 <= j < ids.len() && i != j implies
        ids[i] != ids[j] by {
            assert(l[i] != l[j]);
        }
    }
    ids.unique_seq_to_set();
    let all = vstd::set_lib::set_int_range(1, num_pages);
    assert forall|i: int| 0 <= i < l.len() implies 1 <= #[trigger] l[i] < num_pages by {
        assert(owns(t, root, height, l[i]));
    }
    assert(l.len() >= 1);
    assert(1 <= l[0] < num_pages);
    vstd::set_lib::lemma_int_range(1, num_pages);
    assert forall|x: int| ids.to_set().contains(x) implies all.contains(x) by {
        let i = choose|i: int| 0 <= i < ids.len() && ids[i] == x;
        assert(1 <= l[i] < num_pages);
    }
    vstd::set_lib::lemma_len_subset(ids.to_set(), all);
}

/// The leaves hold what the tree holds.
proof fn lemma_leaf_contents(t: Pages, root: u32, height: nat, e: Entry)
    requires
        height >= 1,
        subtree(t, top(root, height)),
    ensures
        from_leaf(t, leaves(t, root, height), 0, e) <==> contents(t, root, height).contains_pair(
            e.0,
            e.1,
        ),
{
    broadcast use group_key_order;

    let s = top(root, height);
    let l = leaves(t, root, height);
    let q = e.0;
    law_empty_key_first(q);
    lemma_leaves(t, s);
    lemma_leaf_for(t, s, q);
    let p = choose|p: int| #[trigger] parts_at(t, l, p, q) && l[p] == leaf_for(t, root, height, q);
    let es = entries(t[l[p]]);
    lemma_rank(es, q);
    if from_leaf(t, l, 0, e) {
        let j = choose|j: int| 0 <= j < l.len() && (#[trigger] entries(t[l[j]])).contains(e);
        let b = choose|b: int| 0 <= b < entries(t[l[j]]).len() && entries(t[l[j]])[b] == e;
        assert(j == p);
        lemma_at(es, b);
    }
    if contents(t, root, height).contains_pair(e.0, e.1) {
        assert(lookup(es, q) == Some(e.1));
        assert(es[rank(es, q)] == e);
        assert(entries(t[l[p]]).contains(e));
    }
}

/// A scan of a well-formed tree comes to the entries in the range, in ascending order of their
/// keys, or lacks a page of the tree.
#[verifier::spinoff_prover]
#[verifier::rlimit(60)]
pub proof fn lemma_scanned(
    p: Pages,
    t: Pages,
    root: u32,
    height: nat,
    num_pages: int,
    lo: Option<Seq<u8>>,
    hi: Option<Seq<u8>>,
    steps: nat,
)
    requires
        tree_ok(t, root, height, num_pages),
        part_of(p, t),
        steps >= num_pages,
    ensures
        match scanned(p, root, height, lo, hi, steps) {
            Run::Done(out) => {
                &&& sorted(out)
                &&& forall|e: Entry|
                    #[trigger] out.contains(e) <==> contents(t, root, height).contains_pair(
                        e.0,
                        e.1,
                    ) && in_range(e.0, lo, hi)
            },
            Run::Missing(x) => owns(t, root, height, x) && !p.contains_key(x),
            Run::Corrupt(_) => false,
            Run::Unreadable(_) => false,
            Run::Endless => false,
        },
{
    broadcast use group_key_order;

    if height > 0 {
        let s = top(root, height);
        let l = leaves(t, root, height);
        match lo {
            Some(q) => law_empty_key_first(q),
            None => {},
        }
        lemma_descend(p, t, s, lo);
        lemma_leaves(t, s);
        lemma_leaf_count(t, root, height, num_pages);
        let i = match lo {
            Some(q) => {
                lemma_leaf_for(t, s, q);
                choose|i: int|
                    #[trigger] parts_at(t, l, i, q) && l[i] == leaf_for(t, root, height, q)
            },
            None => 0,
        };
        match descend(p, root, height, lo) {
            Descent::Leaf(x) => {
                assert(x == l[i]);
                lemma_run(p, t, s, l, i, lo, hi, steps);
                match run(p, x, lo, hi, steps) {
                    Run::Done(out) => {
                        assert forall|e: Entry| #[trigger] out.contains(e) <==> contents(
                            t,
                            root,
                            height,
                        ).contains_pair(e.0, e.1) && in_range(e.0, lo, hi) by {
                            lemma_leaf_contents(t, root, height, e);
                            if from_leaf(t, l, i, e) {
                                let j = choose|j: int|
                                    i <= j < l.len() && (#[trigger] entries(t[l[j]])).contains(e);
                                assert(entries(t[l[j]]).contains(e));
                                assert(from_leaf(t, l, 0, e));
                            }
                            if from_leaf(t, l, 0, e) && in_range(e.0, lo, hi) {
                                let j = choose|j: int|
                                    0 <= j < l.len() && (#[trigger] entries(t[l[j]])).contains(e);
                                let b = choose|b: int|
                                    0 <= b < entries(t[l[j]]).len() && entries(t[l[j]])[b] == e;
                                if j < i {
                                    assert(key_lt(entries(t[l[j]])[b].0, lo->0));
                                }
                                assert(entries(t[l[j]]).contains(e));
                            }
                        }
                    },
                    _ => {},
                }
            },
            _ => {},
        }
    } else {
        assert(sorted(Seq::<Entry>::empty()));
    }
}

} // verus!
