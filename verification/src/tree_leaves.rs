//! The leaves of a tree from left to right.

use vstd::prelude::*;

use crate::internal::{child_index, child_of};
use crate::key::{group_key_order, key_le, key_lt};
use crate::layout::{entries, link, lookup, Entry};
use crate::leaf::leaf_ok;
use crate::tree::{
    below, children_ok, children_own, find, first_leaf, kid, owns, subtree, within, Pages, Spot,
};
use crate::tree_proof::{lemma_child_index, lemma_kid_within, lemma_owns};

verus! {

/// The leaves below a page, in order.
pub open spec fn leaves(t: Pages, id: u32, height: nat) -> Seq<u32>
    decreases height, 0nat,
{
    if height <= 1 {
        seq![id]
    } else {
        leaves_upto(
            t,
            link(t[id]),
            entries(t[id]),
            (height - 1) as nat,
            entries(t[id]).len() + 1,
        )
    }
}

/// The leaves below the first `n` children, which have the given height.
pub open spec fn leaves_upto(
    t: Pages,
    leftmost: u32,
    es: Seq<Entry>,
    height: nat,
    n: nat,
) -> Seq<u32>
    decreases height, n + 1,
{
    if n == 0 {
        Seq::empty()
    } else {
        leaves_upto(t, leftmost, es, height, (n - 1) as nat) + leaves(
            t,
            child_of(leftmost, es, n - 1),
            height,
        )
    }
}

/// The leaf that is responsible for `k`.
pub open spec fn leaf_for(t: Pages, id: u32, height: nat, k: Seq<u8>) -> u32
    decreases height,
{
    if height <= 1 {
        id
    } else {
        leaf_for(
            t,
            child_of(link(t[id]), entries(t[id]), child_index(entries(t[id]), k)),
            (height - 1) as nat,
            k,
        )
    }
}

/// Every page of `l` is a leaf whose keys are between the bounds.
pub open spec fn leaves_between(
    t: Pages,
    l: Seq<u32>,
    lo: Seq<u8>,
    hi: Option<Seq<u8>>,
) -> bool {
    &&& forall|i: int| 0 <= i < l.len() ==> t.contains_key(#[trigger] l[i]) && leaf_ok(t[l[i]])
    &&& forall|i: int, j: int|
        0 <= i < l.len() && 0 <= j < entries(t[l[i]]).len() ==> key_le(
            lo,
            (#[trigger] entries(t[l[i]])[j]).0,
        ) && below(entries(t[l[i]])[j].0, hi)
}

/// Each leaf links to the one behind it, and the last to `next`.
pub open spec fn chained(t: Pages, l: Seq<u32>, next: u32) -> bool {
    &&& l.len() >= 1
    &&& forall|i: int|
        0 <= i < l.len() ==> link(t[#[trigger] l[i]]) == if i + 1 < l.len() {
            l[i + 1]
        } else {
            next
        }
}

/// The keys of a leaf come before the keys of the leaves behind it.
pub open spec fn leaves_ordered(t: Pages, l: Seq<u32>) -> bool {
    forall|i: int, j: int, a: int, b: int|
        0 <= i < j < l.len() && 0 <= a < entries(t[l[i]]).len() && 0 <= b < entries(t[l[j]]).len()
            ==> key_lt(
            (#[trigger] entries(t[l[i]])[a]).0,
            (#[trigger] entries(t[l[j]])[b]).0,
        )
}

/// Leaf `p` is responsible for `q`: what comes before it has smaller keys, and what follows
/// has larger ones.
pub open spec fn parts_at(t: Pages, l: Seq<u32>, p: int, q: Seq<u8>) -> bool {
    &&& 0 <= p < l.len()
    &&& forall|i: int, j: int|
        0 <= i < p && 0 <= j < entries(t[l[i]]).len() ==> key_lt(
            (#[trigger] entries(t[l[i]])[j]).0,
            q,
        )
    &&& forall|i: int, j: int|
        p < i < l.len() && 0 <= j < entries(t[l[i]]).len() ==> key_lt(
            q,
            (#[trigger] entries(t[l[i]])[j]).0,
        )
}

/// What the leaves of a spot are like.
pub open spec fn leaves_ok(t: Pages, s: Spot, l: Seq<u32>) -> bool {
    &&& chained(t, l, s.next)
    &&& l[0] == first_leaf(t, s.id, s.height)
    &&& leaves_between(t, l, s.lo, s.hi)
    &&& leaves_ordered(t, l)
    &&& l.no_duplicates()
    &&& forall|i: int| 0 <= i < l.len() ==> owns(t, s.id, s.height, #[trigger] l[i])
}

/// `l` followed by the leaves of the next spot.
#[verifier::spinoff_prover]
#[verifier::rlimit(60)]
proof fn lemma_leaves_append(
    t: Pages,
    l: Seq<u32>,
    r: Seq<u32>,
    lo: Seq<u8>,
    mid: Seq<u8>,
    hi: Option<Seq<u8>>,
    next: u32,
)
    requires
        chained(t, l, r[0]),
        chained(t, r, next),
        leaves_between(t, l, lo, Some(mid)),
        leaves_between(t, r, mid, hi),
        leaves_ordered(t, l),
        leaves_ordered(t, r),
        l.no_duplicates(),
        r.no_duplicates(),
        forall|i: int, j: int|
            0 <= i < l.len() && 0 <= j < r.len() ==> #[trigger] l[i] != #[trigger] r[j],
        key_lt(lo, mid),
        below(mid, hi),
    ensures
        chained(t, l + r, next),
        (l + r)[0] == l[0],
        leaves_between(t, l + r, lo, hi),
        leaves_ordered(t, l + r),
        (l + r).no_duplicates(),
{
    broadcast use group_key_order;

    let w = l + r;
    let n = l.len() as int;
    assert(forall|i: int| 0 <= i < n ==> w[i] == l[i]);
    assert(forall|i: int| n <= i < w.len() ==> w[i] == r[i - n]);
    assert forall|i: int| 0 <= i < w.len() implies link(t[#[trigger] w[i]]) == if i + 1 < w.len() {
        w[i + 1]
    } else {
        next
    } by {
        if i < n {
            assert(w[i] == l[i]);
        } else {
            assert(w[i] == r[i - n]);
        }
    }
    assert forall|i: int, j: int|
        0 <= i < w.len() && 0 <= j < entries(t[w[i]]).len() implies key_le(
        lo,
        (#[trigger] entries(t[w[i]])[j]).0,
    ) && below(entries(t[w[i]])[j].0, hi) by {
        if i < n {
            let e = entries(t[l[i]])[j];
        } else {
            let e = entries(t[r[i - n]])[j];
        }
    }
    assert forall|i: int, j: int, a: int, b: int|
        0 <= i < j < w.len() && 0 <= a < entries(t[w[i]]).len() && 0 <= b < entries(
            t[w[j]],
        ).len() implies key_lt(
        (#[trigger] entries(t[w[i]])[a]).0,
        (#[trigger] entries(t[w[j]])[b]).0,
    ) by {
        if i < n && j < n {
            assert(key_lt(entries(t[l[i]])[a].0, entries(t[l[j]])[b].0));
        } else if i < n {
            let e = entries(t[l[i]])[a];
            let f = entries(t[r[j - n]])[b];
        } else {
            assert(key_lt(entries(t[r[i - n]])[a].0, entries(t[r[j - n]])[b].0));
        }
    }
}

/// The leaves below the first children of a page.
proof fn lemma_leaves_upto(t: Pages, lm: u32, es: Seq<Entry>, s: Spot, n: nat)
    requires
        children_ok(t, lm, es, s),
        1 <= n <= es.len() + 1,
    ensures
        ({
            let h = (s.height - 1) as nat;
            let l = leaves_upto(t, lm, es, h, n);
            let last = kid(t, lm, es, s, n - 1);
            &&& chained(t, l, last.next)
            &&& l[0] == first_leaf(t, lm, h)
            &&& leaves_between(t, l, s.lo, last.hi)
            &&& leaves_ordered(t, l)
            &&& l.no_duplicates()
            &&& forall|i: int|
                0 <= i < l.len() ==> exists|c: int|
                    0 <= c < n && owns(t, #[trigger] child_of(lm, es, c), h, #[trigger] l[i])
        }),
    decreases s.height - 1, n,
{
    broadcast use group_key_order;

    let h = (s.height - 1) as nat;
    let c = n - 1;
    let last = kid(t, lm, es, s, c);
    let r = leaves(t, child_of(lm, es, c), h);
    assert(subtree(t, last));
    lemma_leaves(t, last);
    let l = leaves_upto(t, lm, es, h, (n - 1) as nat);
    let w = leaves_upto(t, lm, es, h, n);
    if n == 1 {
        assert(l =~= Seq::<u32>::empty());
        assert(w =~= r);
        assert forall|i: int| 0 <= i < w.len() implies exists|c: int|
            0 <= c < n && owns(t, #[trigger] child_of(lm, es, c), h, #[trigger] w[i]) by {
            assert(owns(t, child_of(lm, es, 0), h, w[i]));
        }
    } else {
        lemma_leaves_upto(t, lm, es, s, (n - 1) as nat);
        let before = kid(t, lm, es, s, n - 2);
        let mid = es[n - 2].0;
        assert(before.hi == Some(mid));
        assert(last.lo == mid);
        assert(before.next == first_leaf(t, child_of(lm, es, c), h));
        assert(key_lt(s.lo, mid) && below(mid, s.hi));
        if n <= es.len() {
            assert(key_lt(es[n - 2].0, es[n - 1].0));
        }
        assert forall|i: int, j: int| 0 <= i < l.len() && 0 <= j < r.len() implies #[trigger] l[i]
            != #[trigger] r[j] by {
            let d = choose|d: int|
                0 <= d < n - 1 && owns(t, #[trigger] child_of(lm, es, d), h, l[i]);
            assert(owns(t, child_of(lm, es, d), h, l[i]));
            assert(owns(t, child_of(lm, es, c), h, r[j]));
        }
        lemma_leaves_append(t, l, r, s.lo, mid, last.hi, last.next);
        assert forall|i: int| 0 <= i < w.len() implies exists|c: int|
            0 <= c < n && owns(t, #[trigger] child_of(lm, es, c), h, #[trigger] w[i]) by {
            if i < l.len() {
                assert(w[i] == l[i]);
                let d = choose|d: int|
                    0 <= d < n - 1 && owns(t, #[trigger] child_of(lm, es, d), h, l[i]);
                assert(owns(t, child_of(lm, es, d), h, w[i]));
            } else {
                assert(w[i] == r[i - l.len()]);
                assert(owns(t, child_of(lm, es, c), h, w[i]));
            }
        }
    }
}

/// The leaves below a spot are chained in order of their keys, and none comes twice.
pub proof fn lemma_leaves(t: Pages, s: Spot)
    requires
        subtree(t, s),
    ensures
        leaves_ok(t, s, leaves(t, s.id, s.height)),
    decreases s.height, 0nat,
{
    let l = leaves(t, s.id, s.height);
    if s.height == 1 {
        assert(l =~= seq![s.id]);
    } else {
        let lm = link(t[s.id]);
        let es = entries(t[s.id]);
        let h = (s.height - 1) as nat;
        lemma_leaves_upto(t, lm, es, s, es.len() + 1);
        assert forall|i: int| 0 <= i < l.len() implies owns(
            t,
            s.id,
            s.height,
            #[trigger] l[i],
        ) by {
            let c = choose|c: int|
                0 <= c < es.len() + 1 && owns(t, #[trigger] child_of(lm, es, c), h, l[i]);
            assert(owns(t, child_of(lm, es, c), h, l[i]));
            assert(children_own(t, lm, es, h, l[i]));
            lemma_owns(t, s.id, s.height, l[i]);
        }
    }
}

/// A key is looked up in the leaf that is responsible for it, which is one of the leaves in
/// their order.
pub proof fn lemma_leaf_for(t: Pages, s: Spot, q: Seq<u8>)
    requires
        subtree(t, s),
        within(q, s),
    ensures
        find(t, s.id, s.height, q) == lookup(entries(t[leaf_for(t, s.id, s.height, q)]), q),
        exists|p: int|
            #[trigger] parts_at(t, leaves(t, s.id, s.height), p, q) && leaves(
                t,
                s.id,
                s.height,
            )[p] == leaf_for(t, s.id, s.height, q),
    decreases s.height,
{
    broadcast use group_key_order;

    let l = leaves(t, s.id, s.height);
    if s.height == 1 {
        assert(parts_at(t, l, 0, q));
    } else {
        let lm = link(t[s.id]);
        let es = entries(t[s.id]);
        let h = (s.height - 1) as nat;
        let c = child_index(es, q);
        lemma_kid_within(t, lm, es, s, q);
        let z = kid(t, lm, es, s, c);
        assert(subtree(t, z));
        lemma_leaf_for(t, z, q);
        let m = leaves(t, z.id, h);
        let p = choose|p: int| #[trigger] parts_at(t, m, p, q) && m[p] == leaf_for(t, z.id, h, q);
        lemma_leaves(t, z);
        lemma_parts_upto(t, lm, es, s, q, c, p, es.len() + 1);
    }
}

/// The leaf that parts the leaves of child `c` parts the leaves of the first `n` children.
#[verifier::spinoff_prover]
#[verifier::rlimit(60)]
proof fn lemma_parts_upto(
    t: Pages,
    lm: u32,
    es: Seq<Entry>,
    s: Spot,
    q: Seq<u8>,
    c: int,
    p: int,
    n: nat,
)
    requires
        children_ok(t, lm, es, s),
        0 <= c < n <= es.len() + 1,
        within(q, s),
        c == child_index(es, q),
        parts_at(t, leaves(t, child_of(lm, es, c), (s.height - 1) as nat), p, q),
    ensures
        exists|w: int|
            #[trigger] parts_at(t, leaves_upto(t, lm, es, (s.height - 1) as nat, n), w, q)
                && leaves_upto(t, lm, es, (s.height - 1) as nat, n)[w] == leaves(
                t,
                child_of(lm, es, c),
                (s.height - 1) as nat,
            )[p],
    decreases n,
{
    broadcast use group_key_order;

    let h = (s.height - 1) as nat;
    let m = leaves(t, child_of(lm, es, c), h);
    let a = leaves_upto(t, lm, es, h, (n - 1) as nat);
    let r = leaves(t, child_of(lm, es, n - 1), h);
    let l = leaves_upto(t, lm, es, h, n);
    assert(l == a + r);
    lemma_child_index(es, q);
    let last = kid(t, lm, es, s, n - 1);
    assert(subtree(t, last));
    lemma_leaves(t, last);
    if c == n - 1 {
        let w = a.len() + p;
        if n > 1 {
            lemma_leaves_upto(t, lm, es, s, (n - 1) as nat);
            let before = kid(t, lm, es, s, n - 2);
            assert(before.hi == Some(es[n - 2].0));
            assert(key_le(es[n - 2].0, q));
        }
        assert forall|i: int, j: int|
            0 <= i < w && 0 <= j < entries(t[l[i]]).len() implies key_lt(
            (#[trigger] entries(t[l[i]])[j]).0,
            q,
        ) by {
            if i < a.len() {
                assert(l[i] == a[i]);
                let e = entries(t[a[i]])[j];
            } else {
                assert(l[i] == m[i - a.len()]);
                let e = entries(t[m[i - a.len()]])[j];
            }
        }
        assert forall|i: int, j: int|
            w < i < l.len() && 0 <= j < entries(t[l[i]]).len() implies key_lt(
            q,
            (#[trigger] entries(t[l[i]])[j]).0,
        ) by {
            assert(l[i] == m[i - a.len()]);
            let e = entries(t[m[i - a.len()]])[j];
        }
        assert(l[w] == m[p]);
        assert(parts_at(t, l, w, q));
    } else {
        lemma_parts_upto(t, lm, es, s, q, c, p, (n - 1) as nat);
        let w = choose|w: int| #[trigger] parts_at(t, a, w, q) && a[w] == m[p];
        assert(last.lo == es[n - 2].0);
        assert(key_lt(q, es[n - 2].0));
        assert forall|i: int, j: int|
            0 <= i < w && 0 <= j < entries(t[l[i]]).len() implies key_lt(
            (#[trigger] entries(t[l[i]])[j]).0,
            q,
        ) by {
            assert(l[i] == a[i]);
            let e = entries(t[a[i]])[j];
        }
        assert forall|i: int, j: int|
            w < i < l.len() && 0 <= j < entries(t[l[i]]).len() implies key_lt(
            q,
            (#[trigger] entries(t[l[i]])[j]).0,
        ) by {
            if i < a.len() {
                assert(l[i] == a[i]);
                let e = entries(t[a[i]])[j];
            } else {
                assert(l[i] == r[i - a.len()]);
                let e = entries(t[r[i - a.len()]])[j];
            }
        }
        assert(l[w] == a[w]);
        assert(parts_at(t, l, w, q));
    }
}

} // verus!
