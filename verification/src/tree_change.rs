//! How a change of one leaf, and the splits that it causes, change the tree above it.

use vstd::prelude::*;

use crate::byte::u32_bytes;
use crate::internal::{child_index, child_of, lemma_child_bytes};
use crate::internal::MAX_SEPARATOR;
use crate::key::{group_key_order, key_le, key_lt, law_key_total};
use crate::layout::{has_key, lemma_rank, lemma_rank_unique, rank, sorted, upsert, Entry};
use crate::tree::{
    below, children_apart, children_ok, children_own, find, first_leaf, kid, owns, subtree, within,
    Pages, Spot,
};
use crate::tree_proof::{
    lemma_child_index, lemma_child_index_unique, lemma_frame, lemma_kid_within, same_at,
};

verus! {

/// Outside the pages at and below the spot, and the new pages from `a` up to `b`, nothing
/// differs.
pub open spec fn untouched(t: Pages, u: Pages, s: Spot, a: int, b: int) -> bool {
    forall|x: u32| !owns(t, s.id, s.height, x) && !(a <= x < b) ==> #[trigger] same_at(t, u, x)
}

/// What is found under `q` once `nv` is under `k`.
pub open spec fn answer(
    t: Pages,
    id: u32,
    height: nat,
    k: Seq<u8>,
    nv: Option<Seq<u8>>,
    q: Seq<u8>,
) -> Option<Seq<u8>> {
    if q == k {
        nv
    } else {
        find(t, id, height, q)
    }
}

/// In `u` the spot holds what it held in `t`, but for `nv` under `k`. Pages from `a` up to `b`
/// are new.
pub open spec fn one(
    t: Pages,
    u: Pages,
    s: Spot,
    k: Seq<u8>,
    nv: Option<Seq<u8>>,
    a: int,
    b: int,
) -> bool {
    &&& subtree(u, s)
    &&& first_leaf(u, s.id, s.height) == first_leaf(t, s.id, s.height)
    &&& forall|x: u32| #[trigger]
        owns(u, s.id, s.height, x) ==> owns(t, s.id, s.height, x) || a <= x < b
    &&& untouched(t, u, s, a, b)
    &&& forall|q: Seq<u8>|
        within(q, s) ==> #[trigger] find(u, s.id, s.height, q) == answer(
            t,
            s.id,
            s.height,
            k,
            nv,
            q,
        )
}

/// The left part of a spot that is parted at `sep`.
pub open spec fn left_part(u: Pages, s: Spot, sep: Seq<u8>, r: u32) -> Spot {
    Spot { hi: Some(sep), next: first_leaf(u, r, s.height), ..s }
}

/// The right part of a spot that is parted at `sep`.
pub open spec fn right_part(s: Spot, sep: Seq<u8>, r: u32) -> Spot {
    Spot { id: r, lo: sep, ..s }
}

/// As `one`, but in `u` the spot is parted: page `r` holds the keys from `sep` on.
pub open spec fn two(
    t: Pages,
    u: Pages,
    s: Spot,
    k: Seq<u8>,
    nv: Option<Seq<u8>>,
    a: int,
    b: int,
    sep: Seq<u8>,
    r: u32,
) -> bool {
    &&& subtree(u, left_part(u, s, sep, r))
    &&& subtree(u, right_part(s, sep, r))
    &&& key_lt(s.lo, sep)
    &&& below(sep, s.hi)
    &&& sep.len() <= MAX_SEPARATOR
    &&& first_leaf(u, s.id, s.height) == first_leaf(t, s.id, s.height)
    &&& forall|x: u32| #[trigger]
        owns(u, s.id, s.height, x) ==> owns(t, s.id, s.height, x) || a <= x < b
    &&& forall|x: u32| #[trigger]
        owns(u, r, s.height, x) ==> owns(t, s.id, s.height, x) || a <= x < b
    &&& forall|x: u32| #[trigger] owns(u, s.id, s.height, x) ==> !owns(u, r, s.height, x)
    &&& untouched(t, u, s, a, b)
    &&& forall|q: Seq<u8>|
        within(q, s) && key_lt(q, sep) ==> #[trigger] find(u, s.id, s.height, q) == answer(
            t,
            s.id,
            s.height,
            k,
            nv,
            q,
        )
    &&& forall|q: Seq<u8>|
        within(q, s) && key_le(sep, q) ==> #[trigger] find(u, r, s.height, q) == answer(
            t,
            s.id,
            s.height,
            k,
            nv,
            q,
        )
}

/// The children of a page other than child `i` are as they were when only child `i` and new
/// pages have changed.
proof fn lemma_other_child(
    t: Pages,
    u: Pages,
    lm: u32,
    es: Seq<Entry>,
    s: Spot,
    i: int,
    j: int,
    a: int,
    b: int,
)
    requires
        children_ok(t, lm, es, s),
        0 <= i <= es.len(),
        0 <= j <= es.len(),
        i != j,
        untouched(t, u, kid(t, lm, es, s, i), a, b),
        forall|x: u32|
            #[trigger] children_own(t, lm, es, (s.height - 1) as nat, x) ==> x < a,
    ensures
        subtree(u, kid(t, lm, es, s, j)),
        first_leaf(u, child_of(lm, es, j), (s.height - 1) as nat) == first_leaf(
            t,
            child_of(lm, es, j),
            (s.height - 1) as nat,
        ),
        forall|x: u32|
            #[trigger] owns(u, child_of(lm, es, j), (s.height - 1) as nat, x) <==> owns(
                t,
                child_of(lm, es, j),
                (s.height - 1) as nat,
                x,
            ),
        forall|q: Seq<u8>|
            #[trigger] find(u, child_of(lm, es, j), (s.height - 1) as nat, q) == find(
                t,
                child_of(lm, es, j),
                (s.height - 1) as nat,
                q,
            ),
{
    let h = (s.height - 1) as nat;
    let ci = child_of(lm, es, i);
    let cj = child_of(lm, es, j);
    let kj = kid(t, lm, es, s, j);
    assert forall|x: u32| #[trigger] owns(t, cj, h, x) implies same_at(t, u, x) by {
        assert(children_own(t, lm, es, h, x));
        assert(!owns(t, ci, h, x)) by {
            if owns(t, ci, h, x) {
                assert(children_apart(t, lm, es, h));
                if i < j {
                    assert(!owns(t, cj, h, x));
                } else {
                    assert(!owns(t, ci, h, x));
                }
            }
        }
    }
    lemma_frame(t, u, kj);
}

/// The children of a page after a change in the child that holds `k`.
#[verifier::spinoff_prover]
#[verifier::rlimit(60)]
pub proof fn lemma_children_one(
    t: Pages,
    u: Pages,
    lm: u32,
    es: Seq<Entry>,
    s: Spot,
    k: Seq<u8>,
    nv: Option<Seq<u8>>,
    a: int,
    b: int,
)
    requires
        children_ok(t, lm, es, s),
        within(k, s),
        one(t, u, kid(t, lm, es, s, child_index(es, k)), k, nv, a, b),
        forall|x: u32|
            #[trigger] children_own(t, lm, es, (s.height - 1) as nat, x) ==> x < a,
    ensures
        children_ok(u, lm, es, s),
        first_leaf(u, lm, (s.height - 1) as nat) == first_leaf(t, lm, (s.height - 1) as nat),
        forall|x: u32| #[trigger]
            children_own(u, lm, es, (s.height - 1) as nat, x) ==> children_own(
                t,
                lm,
                es,
                (s.height - 1) as nat,
                x,
            ) || a <= x < b,
        forall|q: Seq<u8>|
            #![trigger child_index(es, q)]
            within(q, s) ==> find(
                u,
                child_of(lm, es, child_index(es, q)),
                (s.height - 1) as nat,
                q,
            ) == answer(
                t,
                child_of(lm, es, child_index(es, q)),
                (s.height - 1) as nat,
                k,
                nv,
                q,
            ),
{
    broadcast use group_key_order;

    let h = (s.height - 1) as nat;
    let i = child_index(es, k);
    lemma_kid_within(t, lm, es, s, k);
    let ki = kid(t, lm, es, s, i);
    assert forall|j: int| 0 <= j <= es.len() implies {
        &&& subtree(u, kid(t, lm, es, s, j))
        &&& first_leaf(u, #[trigger] child_of(lm, es, j), h) == first_leaf(
            t,
            child_of(lm, es, j),
            h,
        )
        &&& forall|x: u32| #[trigger]
            owns(u, child_of(lm, es, j), h, x) ==> owns(t, child_of(lm, es, j), h, x) || i == j && a
                <= x < b
        &&& i != j ==> forall|q: Seq<u8>|
            #[trigger] find(u, child_of(lm, es, j), h, q) == find(t, child_of(lm, es, j), h, q)
    } by {
        if i != j {
            lemma_other_child(t, u, lm, es, s, i, j, a, b);
        }
    }
    assert forall|j: int| 0 <= j <= es.len() implies subtree(
        u,
        #[trigger] kid(u, lm, es, s, j),
    ) by {
        let c = child_of(lm, es, j);
        let d = child_of(lm, es, j + 1);
        assert(kid(u, lm, es, s, j) == kid(t, lm, es, s, j));
    }
    assert(children_apart(u, lm, es, h)) by {
        assert forall|p: int, q: int, x: u32|
            0 <= p < q <= es.len() && #[trigger] owns(u, child_of(lm, es, p), h, x) implies !(
        #[trigger] owns(u, child_of(lm, es, q), h, x)) by {
            let cp = child_of(lm, es, p);
            let cq = child_of(lm, es, q);
            if owns(u, cq, h, x) {
                if owns(t, cp, h, x) {
                    assert(children_own(t, lm, es, h, x));
                    assert(!owns(t, cq, h, x));
                } else {
                    assert(owns(t, cq, h, x));
                    assert(children_own(t, lm, es, h, x));
                }
            }
        }
    }
    assert forall|x: u32| #[trigger] children_own(u, lm, es, h, x) implies children_own(
        t,
        lm,
        es,
        h,
        x,
    ) || a <= x < b by {
        let j = choose|j: int| 0 <= j <= es.len() && owns(u, child_of(lm, es, j), h, x);
        let c = child_of(lm, es, j);
        if owns(t, c, h, x) {
            assert(children_own(t, lm, es, h, x));
        }
    }
    assert(child_of(lm, es, 0) == lm);
    assert forall|q: Seq<u8>|
        #![trigger child_index(es, q)]
        within(q, s) implies find(u, child_of(lm, es, child_index(es, q)), h, q) == answer(
        t,
        child_of(lm, es, child_index(es, q)),
        h,
        k,
        nv,
        q,
    ) by {
        lemma_kid_within(t, lm, es, s, q);
        let j = child_index(es, q);
        let c = child_of(lm, es, j);
        if j == i {
            assert(within(q, ki));
        }
    }
}

/// A separator from inside child `i` goes between its neighbours.
pub proof fn lemma_separator_rank(es: Seq<Entry>, i: int, sep: Seq<u8>)
    requires
        sorted(es),
        0 <= i <= es.len(),
        i > 0 ==> key_lt(es[i - 1].0, sep),
        i < es.len() ==> key_lt(sep, es[i].0),
    ensures
        rank(es, sep) == i,
        !has_key(es, sep),
{
    broadcast use group_key_order;

    assert forall|j: int| 0 <= j < i implies key_lt(#[trigger] es[j].0, sep) by {
        if j < i - 1 {
            assert(key_lt(es[j].0, es[i - 1].0));
        }
    }
    lemma_rank_unique(es, sep, i);
    lemma_rank(es, sep);
}

/// The children of a page with new pages from `a` on, where the child that holds `k` was
/// parted.
pub open spec fn child_parted(
    t: Pages,
    u: Pages,
    lm: u32,
    es: Seq<Entry>,
    s: Spot,
    k: Seq<u8>,
    nv: Option<Seq<u8>>,
    a: int,
    b: int,
    sep: Seq<u8>,
    r: u32,
) -> bool {
    &&& children_ok(t, lm, es, s)
    &&& within(k, s)
    &&& two(t, u, kid(t, lm, es, s, child_index(es, k)), k, nv, a, b, sep, r)
    &&& forall|x: u32| #[trigger] children_own(t, lm, es, (s.height - 1) as nat, x) ==> x < a
}

/// Child `j` of the new separators among the old children; the new child counts as the one
/// that it was parted from.
pub open spec fn old_child(i: int, j: int) -> int {
    if j <= i {
        j
    } else {
        j - 1
    }
}

proof fn lemma_parted_separators(
    t: Pages,
    u: Pages,
    lm: u32,
    es: Seq<Entry>,
    s: Spot,
    k: Seq<u8>,
    nv: Option<Seq<u8>>,
    a: int,
    b: int,
    sep: Seq<u8>,
    r: u32,
)
    requires
        child_parted(t, u, lm, es, s, k, nv, a, b, sep, r),
    ensures
        0 <= child_index(es, k) <= es.len(),
        within(k, kid(t, lm, es, s, child_index(es, k))),
        !has_key(es, sep),
        upsert(es, sep, u32_bytes(r)) == es.insert(child_index(es, k), (sep, u32_bytes(r))),
        sorted(upsert(es, sep, u32_bytes(r))),
        forall|j: int|
            0 <= j <= es.len() + 1 ==> #[trigger] child_of(lm, upsert(es, sep, u32_bytes(r)), j)
                == if j == child_index(es, k) + 1 {
                r
            } else {
                child_of(lm, es, old_child(child_index(es, k), j))
            },
        forall|j: int|
            0 <= j < es.len() + 1 ==> key_lt(
                s.lo,
                #[trigger] upsert(es, sep, u32_bytes(r))[j].0,
            ) && below(upsert(es, sep, u32_bytes(r))[j].0, s.hi),
{
    broadcast use group_key_order;

    let i = child_index(es, k);
    lemma_kid_within(t, lm, es, s, k);
    let ki = kid(t, lm, es, s, i);
    lemma_separator_rank(es, i, sep);
    crate::layout::lemma_upsert_sorted(es, sep, u32_bytes(r));
    lemma_child_bytes(r);
    let ns = es.insert(i, (sep, u32_bytes(r)));
    assert forall|j: int| 0 <= j < ns.len() implies key_lt(s.lo, #[trigger] ns[j].0) && below(
        ns[j].0,
        s.hi,
    ) by {
        if j != i {
            let o = if j < i {
                j
            } else {
                j - 1
            };
            assert(ns[j] == es[o]);
            assert(key_lt(s.lo, es[o].0));
        } else {
            if i > 0 {
                assert(key_lt(s.lo, es[i - 1].0));
            }
            if i < es.len() {
                assert(below(es[i].0, s.hi));
            }
        }
    }
}

proof fn lemma_parted_kids(
    t: Pages,
    u: Pages,
    lm: u32,
    es: Seq<Entry>,
    s: Spot,
    k: Seq<u8>,
    nv: Option<Seq<u8>>,
    a: int,
    b: int,
    sep: Seq<u8>,
    r: u32,
    j: int,
)
    requires
        child_parted(t, u, lm, es, s, k, nv, a, b, sep, r),
        0 <= j <= es.len() + 1,
    ensures
        subtree(u, kid(u, lm, upsert(es, sep, u32_bytes(r)), s, j)),
{
    let h = (s.height - 1) as nat;
    let i = child_index(es, k);
    lemma_parted_separators(t, u, lm, es, s, k, nv, a, b, sep, r);
    let ki = kid(t, lm, es, s, i);
    let ns = upsert(es, sep, u32_bytes(r));
    let kj = kid(u, lm, ns, s, j);
    let c = child_of(lm, ns, j);
    let n = child_of(lm, ns, j + 1);
    if j == i {
        assert(kj == left_part(u, ki, sep, r));
    } else if j == i + 1 {
        if i < es.len() {
            lemma_other_child(t, u, lm, es, s, i, i + 1, a, b);
            assert(n == child_of(lm, es, i + 1));
        }
        assert(kj == right_part(ki, sep, r));
    } else {
        let o = old_child(i, j);
        lemma_other_child(t, u, lm, es, s, i, o, a, b);
        if o < es.len() {
            assert(n == child_of(lm, es, o + 1));
            if o + 1 != i {
                lemma_other_child(t, u, lm, es, s, i, o + 1, a, b);
            }
        }
        assert(kj == kid(t, lm, es, s, o));
    }
}

/// A page below a child was below the child that it comes from, or is new.
proof fn lemma_parted_owns(
    t: Pages,
    u: Pages,
    lm: u32,
    es: Seq<Entry>,
    s: Spot,
    k: Seq<u8>,
    nv: Option<Seq<u8>>,
    a: int,
    b: int,
    sep: Seq<u8>,
    r: u32,
    j: int,
    x: u32,
)
    requires
        child_parted(t, u, lm, es, s, k, nv, a, b, sep, r),
        0 <= j <= es.len() + 1,
        owns(u, child_of(lm, upsert(es, sep, u32_bytes(r)), j), (s.height - 1) as nat, x),
    ensures
        ({
            let i = child_index(es, k);
            let o = old_child(i, j);
            ||| owns(t, child_of(lm, es, o), (s.height - 1) as nat, x)
            ||| o == i && a <= x < b
        }),
        children_own(t, lm, es, (s.height - 1) as nat, x) || a <= x < b,
{
    let h = (s.height - 1) as nat;
    let i = child_index(es, k);
    lemma_parted_separators(t, u, lm, es, s, k, nv, a, b, sep, r);
    let ki = kid(t, lm, es, s, i);
    let o = old_child(i, j);
    let c = child_of(lm, upsert(es, sep, u32_bytes(r)), j);
    let d = child_of(lm, es, o);
    if j == i {
        assert(owns(u, ki.id, h, x));
    } else if j == i + 1 {
        assert(owns(u, r, h, x));
    } else {
        lemma_other_child(t, u, lm, es, s, i, o, a, b);
        assert(owns(u, d, h, x));
    }
    if owns(t, d, h, x) {
        assert(children_own(t, lm, es, h, x));
    }
}

proof fn lemma_parted_apart(
    t: Pages,
    u: Pages,
    lm: u32,
    es: Seq<Entry>,
    s: Spot,
    k: Seq<u8>,
    nv: Option<Seq<u8>>,
    a: int,
    b: int,
    sep: Seq<u8>,
    r: u32,
)
    requires
        child_parted(t, u, lm, es, s, k, nv, a, b, sep, r),
    ensures
        children_apart(u, lm, upsert(es, sep, u32_bytes(r)), (s.height - 1) as nat),
{
    let h = (s.height - 1) as nat;
    let i = child_index(es, k);
    lemma_parted_separators(t, u, lm, es, s, k, nv, a, b, sep, r);
    let ki = kid(t, lm, es, s, i);
    let ns = upsert(es, sep, u32_bytes(r));
    assert forall|p: int, q: int, x: u32|
        0 <= p < q <= ns.len() && #[trigger] owns(u, child_of(lm, ns, p), h, x) implies !(
    #[trigger] owns(u, child_of(lm, ns, q), h, x)) by {
        if owns(u, child_of(lm, ns, q), h, x) {
            lemma_parted_owns(t, u, lm, es, s, k, nv, a, b, sep, r, p, x);
            lemma_parted_owns(t, u, lm, es, s, k, nv, a, b, sep, r, q, x);
            let cp = child_of(lm, es, old_child(i, p));
            let cq = child_of(lm, es, old_child(i, q));
            if p == i && q == i + 1 {
                assert(owns(u, ki.id, h, x));
                assert(owns(u, r, h, x));
            } else {
                if owns(t, cp, h, x) {
                    assert(children_own(t, lm, es, h, x));
                    assert(!owns(t, cq, h, x));
                } else {
                    assert(owns(t, cq, h, x));
                    assert(children_own(t, lm, es, h, x));
                }
            }
        }
    }
}

proof fn lemma_parted_find(
    t: Pages,
    u: Pages,
    lm: u32,
    es: Seq<Entry>,
    s: Spot,
    k: Seq<u8>,
    nv: Option<Seq<u8>>,
    a: int,
    b: int,
    sep: Seq<u8>,
    r: u32,
    q: Seq<u8>,
)
    requires
        child_parted(t, u, lm, es, s, k, nv, a, b, sep, r),
        within(q, s),
    ensures
        ({
            let ns = upsert(es, sep, u32_bytes(r));
            let h = (s.height - 1) as nat;
            find(u, child_of(lm, ns, child_index(ns, q)), h, q) == answer(
                t,
                child_of(lm, es, child_index(es, q)),
                h,
                k,
                nv,
                q,
            )
        }),
{
    broadcast use group_key_order;

    let h = (s.height - 1) as nat;
    let i = child_index(es, k);
    lemma_parted_separators(t, u, lm, es, s, k, nv, a, b, sep, r);
    let ki = kid(t, lm, es, s, i);
    let ns = upsert(es, sep, u32_bytes(r));
    lemma_kid_within(t, lm, es, s, q);
    let j = child_index(es, q);
    law_key_total(q, sep);
    let nj = if j < i || j == i && key_lt(q, sep) {
        j
    } else {
        j + 1
    };
    lemma_child_index(es, q);
    lemma_child_index(es, k);
    assert(j < i ==> key_lt(q, sep)) by {
        if j < i {
            assert(key_lt(q, es[j].0));
            if j < i - 1 {
                assert(key_lt(es[j].0, es[i - 1].0));
            }
        }
    }
    assert(j > i ==> key_lt(sep, q)) by {
        if j > i {
            assert(key_le(es[i].0, q));
        }
    }
    if nj > 0 {
        if nj - 1 < i {
            assert(ns[nj - 1] == es[nj - 1]);
        } else if nj - 1 > i {
            assert(ns[nj - 1] == es[nj - 2]);
        }
    }
    if nj < ns.len() {
        if nj < i {
            assert(ns[nj] == es[nj]);
        } else if nj > i {
            assert(ns[nj] == es[nj - 1]);
        }
    }
    lemma_child_index_unique(ns, q, nj);
    let c = child_of(lm, es, j);
    let d = child_of(lm, ns, nj);
    if j == i {
        assert(within(q, ki));
    } else {
        lemma_other_child(t, u, lm, es, s, i, j, a, b);
        if q == k {
            assert(j == i);
        }
    }
}

/// The children of a page after the child that holds `k` was parted.
#[verifier::spinoff_prover]
#[verifier::rlimit(60)]
pub proof fn lemma_children_two(
    t: Pages,
    u: Pages,
    lm: u32,
    es: Seq<Entry>,
    s: Spot,
    k: Seq<u8>,
    nv: Option<Seq<u8>>,
    a: int,
    b: int,
    sep: Seq<u8>,
    r: u32,
)
    requires
        child_parted(t, u, lm, es, s, k, nv, a, b, sep, r),
    ensures
        !has_key(es, sep),
        children_ok(u, lm, upsert(es, sep, u32_bytes(r)), s),
        first_leaf(u, lm, (s.height - 1) as nat) == first_leaf(t, lm, (s.height - 1) as nat),
        forall|x: u32| #[trigger]
            children_own(
                u,
                lm,
                upsert(es, sep, u32_bytes(r)),
                (s.height - 1) as nat,
                x,
            ) ==> children_own(t, lm, es, (s.height - 1) as nat, x) || a <= x < b,
        forall|q: Seq<u8>|
            #![trigger child_index(upsert(es, sep, u32_bytes(r)), q)]
            within(q, s) ==> find(
                u,
                child_of(
                    lm,
                    upsert(es, sep, u32_bytes(r)),
                    child_index(upsert(es, sep, u32_bytes(r)), q),
                ),
                (s.height - 1) as nat,
                q,
            ) == answer(
                t,
                child_of(lm, es, child_index(es, q)),
                (s.height - 1) as nat,
                k,
                nv,
                q,
            ),
{
    let h = (s.height - 1) as nat;
    let i = child_index(es, k);
    let ns = upsert(es, sep, u32_bytes(r));
    lemma_parted_separators(t, u, lm, es, s, k, nv, a, b, sep, r);
    lemma_parted_apart(t, u, lm, es, s, k, nv, a, b, sep, r);
    assert forall|j: int| 0 <= j <= ns.len() implies subtree(
        u,
        #[trigger] kid(u, lm, ns, s, j),
    ) by {
        lemma_parted_kids(t, u, lm, es, s, k, nv, a, b, sep, r, j);
    }
    assert forall|x: u32| #[trigger] children_own(u, lm, ns, h, x) implies children_own(
        t,
        lm,
        es,
        h,
        x,
    ) || a <= x < b by {
        let j = choose|j: int| 0 <= j <= ns.len() && owns(u, child_of(lm, ns, j), h, x);
        lemma_parted_owns(t, u, lm, es, s, k, nv, a, b, sep, r, j, x);
    }
    assert(first_leaf(u, lm, h) == first_leaf(t, lm, h)) by {
        assert(child_of(lm, es, 0) == lm);
        if i != 0 {
            lemma_other_child(t, u, lm, es, s, i, 0, a, b);
        }
    }
    assert forall|q: Seq<u8>|
        #![trigger child_index(ns, q)]
        within(q, s) implies find(u, child_of(lm, ns, child_index(ns, q)), h, q) == answer(
        t,
        child_of(lm, es, child_index(es, q)),
        h,
        k,
        nv,
        q,
    ) by {
        lemma_parted_find(t, u, lm, es, s, k, nv, a, b, sep, r, q);
    }
}

// From the children of a page to the page.

/// Children whose pages are the same in `u` are the same there.
pub proof fn lemma_children_frame(t: Pages, u: Pages, lm: u32, es: Seq<Entry>, s: Spot)
    requires
        children_ok(t, lm, es, s),
        forall|x: u32| #[trigger]
            children_own(t, lm, es, (s.height - 1) as nat, x) ==> same_at(t, u, x),
    ensures
        children_ok(u, lm, es, s),
        first_leaf(u, lm, (s.height - 1) as nat) == first_leaf(t, lm, (s.height - 1) as nat),
        forall|x: u32|
            #[trigger] children_own(u, lm, es, (s.height - 1) as nat, x) <==> children_own(
                t,
                lm,
                es,
                (s.height - 1) as nat,
                x,
            ),
        forall|q: Seq<u8>|
            #![trigger child_index(es, q)]
            find(u, child_of(lm, es, child_index(es, q)), (s.height - 1) as nat, q) == find(
                t,
                child_of(lm, es, child_index(es, q)),
                (s.height - 1) as nat,
                q,
            ),
{
    let h = (s.height - 1) as nat;
    assert forall|j: int| 0 <= j <= es.len() implies {
        &&& subtree(u, kid(t, lm, es, s, j))
        &&& first_leaf(u, #[trigger] child_of(lm, es, j), h) == first_leaf(
            t,
            child_of(lm, es, j),
            h,
        )
        &&& forall|x: u32| #[trigger]
            owns(u, child_of(lm, es, j), h, x) <==> owns(t, child_of(lm, es, j), h, x)
        &&& forall|q: Seq<u8>|
            #[trigger] find(u, child_of(lm, es, j), h, q) == find(t, child_of(lm, es, j), h, q)
    } by {
        let c = child_of(lm, es, j);
        let kj = kid(t, lm, es, s, j);
        assert forall|x: u32| #[trigger] owns(t, c, h, x) implies same_at(t, u, x) by {
            assert(children_own(t, lm, es, h, x));
        }
        lemma_frame(t, u, kj);
    }
    assert forall|j: int| 0 <= j <= es.len() implies subtree(
        u,
        #[trigger] kid(u, lm, es, s, j),
    ) by {
        let c = child_of(lm, es, j);
        let d = child_of(lm, es, j + 1);
        assert(kid(u, lm, es, s, j) == kid(t, lm, es, s, j));
    }
    assert(children_apart(u, lm, es, h)) by {
        assert forall|p: int, q: int, x: u32|
            0 <= p < q <= es.len() && #[trigger] owns(u, child_of(lm, es, p), h, x) implies !(
        #[trigger] owns(u, child_of(lm, es, q), h, x)) by {
            let cp = child_of(lm, es, p);
            let cq = child_of(lm, es, q);
            assert(owns(t, cp, h, x));
            assert(!owns(t, cq, h, x));
        }
    }
    assert forall|x: u32|
        #[trigger] children_own(u, lm, es, h, x) <==> children_own(t, lm, es, h, x) by {
        if children_own(u, lm, es, h, x) {
            let j = choose|j: int| 0 <= j <= es.len() && owns(u, child_of(lm, es, j), h, x);
            let c = child_of(lm, es, j);
            assert(owns(t, c, h, x));
        }
        if children_own(t, lm, es, h, x) {
            let j = choose|j: int| 0 <= j <= es.len() && owns(t, child_of(lm, es, j), h, x);
            let c = child_of(lm, es, j);
            assert(owns(u, c, h, x));
        }
    }
    assert(child_of(lm, es, 0) == lm);
    assert forall|q: Seq<u8>|
        #![trigger child_index(es, q)]
        find(u, child_of(lm, es, child_index(es, q)), h, q) == find(
            t,
            child_of(lm, es, child_index(es, q)),
            h,
            q,
        ) by {
        lemma_child_index(es, q);
        let c = child_of(lm, es, child_index(es, q));
    }
}

/// The first children of a page, up to those in front of separator `m`, and the others.
#[verifier::spinoff_prover]
#[verifier::rlimit(60)]
pub proof fn lemma_children_cut(t: Pages, lm: u32, es: Seq<Entry>, s: Spot, m: int)
    requires
        children_ok(t, lm, es, s),
        0 <= m < es.len(),
    ensures
        ({
            let h = (s.height - 1) as nat;
            let rlm = child_of(lm, es, m + 1);
            let ls = Spot { hi: Some(es[m].0), next: first_leaf(t, rlm, h), ..s };
            let rs = Spot { lo: es[m].0, ..s };
            &&& children_ok(t, lm, es.take(m), ls)
            &&& children_ok(t, rlm, es.skip(m + 1), rs)
            &&& forall|x: u32| #[trigger]
                children_own(t, lm, es.take(m), h, x) ==> children_own(t, lm, es, h, x)
            &&& forall|x: u32| #[trigger]
                children_own(t, rlm, es.skip(m + 1), h, x) ==> children_own(t, lm, es, h, x)
            &&& forall|x: u32| #[trigger]
                children_own(t, lm, es.take(m), h, x) ==> !children_own(
                    t,
                    rlm,
                    es.skip(m + 1),
                    h,
                    x,
                )
            &&& forall|q: Seq<u8>|
                #![trigger child_index(es, q)]
                within(q, s) && key_lt(q, es[m].0) ==> child_of(
                    lm,
                    es.take(m),
                    child_index(es.take(m), q),
                ) == child_of(lm, es, child_index(es, q))
            &&& forall|q: Seq<u8>|
                #![trigger child_index(es, q)]
                within(q, s) && key_le(es[m].0, q) ==> child_of(
                    rlm,
                    es.skip(m + 1),
                    child_index(es.skip(m + 1), q),
                ) == child_of(lm, es, child_index(es, q))
        }),
{
    broadcast use group_key_order;

    let h = (s.height - 1) as nat;
    let rlm = child_of(lm, es, m + 1);
    let l = es.take(m);
    let r = es.skip(m + 1);
    let sep = es[m].0;
    let ls = Spot { hi: Some(sep), next: first_leaf(t, rlm, h), ..s };
    let rs = Spot { lo: sep, ..s };
    crate::items::lemma_cut_sorted(es, m);
    crate::items::lemma_cut_sorted(es, m + 1);
    assert forall|j: int| 0 <= j <= l.len() implies #[trigger] child_of(lm, l, j) == child_of(
        lm,
        es,
        j,
    ) by {}
    assert forall|j: int| 0 <= j <= r.len() implies #[trigger] child_of(rlm, r, j) == child_of(
        lm,
        es,
        j + m + 1,
    ) by {}
    assert forall|j: int| 0 <= j < l.len() implies key_lt(ls.lo, #[trigger] l[j].0) && below(
        l[j].0,
        ls.hi,
    ) by {
        assert(key_lt(es[j].0, es[m].0));
    }
    assert forall|j: int| 0 <= j < r.len() implies key_lt(rs.lo, #[trigger] r[j].0) && below(
        r[j].0,
        rs.hi,
    ) by {
        assert(key_lt(es[m].0, es[j + m + 1].0));
    }
    assert forall|j: int| 0 <= j <= l.len() implies subtree(t, #[trigger] kid(t, lm, l, ls, j)) by {
        let c = child_of(lm, l, j);
        let d = child_of(lm, l, j + 1);
        assert(kid(t, lm, l, ls, j) == kid(t, lm, es, s, j));
    }
    assert forall|j: int| 0 <= j <= r.len() implies subtree(
        t,
        #[trigger] kid(t, rlm, r, rs, j),
    ) by {
        let c = child_of(rlm, r, j);
        let d = child_of(rlm, r, j + 1);
        assert(kid(t, rlm, r, rs, j) == kid(t, lm, es, s, j + m + 1));
    }
    assert(children_apart(t, lm, l, h)) by {
        assert forall|p: int, q: int, x: u32|
            0 <= p < q <= l.len() && #[trigger] owns(t, child_of(lm, l, p), h, x) implies !(
        #[trigger] owns(t, child_of(lm, l, q), h, x)) by {
            assert(owns(t, child_of(lm, es, p), h, x));
            assert(!owns(t, child_of(lm, es, q), h, x));
        }
    }
    assert(children_apart(t, rlm, r, h)) by {
        assert forall|p: int, q: int, x: u32|
            0 <= p < q <= r.len() && #[trigger] owns(t, child_of(rlm, r, p), h, x) implies !(
        #[trigger] owns(t, child_of(rlm, r, q), h, x)) by {
            assert(owns(t, child_of(lm, es, p + m + 1), h, x));
            assert(!owns(t, child_of(lm, es, q + m + 1), h, x));
        }
    }
    assert forall|x: u32| #[trigger] children_own(t, lm, l, h, x) implies children_own(
        t,
        lm,
        es,
        h,
        x,
    ) && !children_own(t, rlm, r, h, x) by {
        let j = choose|j: int| 0 <= j <= l.len() && owns(t, child_of(lm, l, j), h, x);
        assert(owns(t, child_of(lm, es, j), h, x));
        if children_own(t, rlm, r, h, x) {
            let i = choose|i: int| 0 <= i <= r.len() && owns(t, child_of(rlm, r, i), h, x);
            assert(owns(t, child_of(lm, es, i + m + 1), h, x));
        }
    }
    assert forall|x: u32| #[trigger] children_own(t, rlm, r, h, x) implies children_own(
        t,
        lm,
        es,
        h,
        x,
    ) by {
        let j = choose|j: int| 0 <= j <= r.len() && owns(t, child_of(rlm, r, j), h, x);
        assert(owns(t, child_of(lm, es, j + m + 1), h, x));
    }
    assert forall|q: Seq<u8>|
        #![trigger child_index(es, q)]
        within(q, s) && key_lt(q, es[m].0) implies child_of(lm, l, child_index(l, q)) == child_of(
        lm,
        es,
        child_index(es, q),
    ) by {
        lemma_child_index(es, q);
        let j = child_index(es, q);
        if j > m {
            assert(key_le(es[m].0, q));
        }
        if j > 0 {
            assert(l[j - 1] == es[j - 1]);
        }
        if j < l.len() {
            assert(l[j] == es[j]);
        }
        lemma_child_index_unique(l, q, j);
    }
    assert forall|q: Seq<u8>|
        #![trigger child_index(es, q)]
        within(q, s) && key_le(es[m].0, q) implies child_of(rlm, r, child_index(r, q)) == child_of(
        lm,
        es,
        child_index(es, q),
    ) by {
        lemma_child_index(es, q);
        let j = child_index(es, q);
        if j <= m {
            assert(key_lt(q, es[m].0));
        }
        if j - m - 1 > 0 {
            assert(r[j - m - 2] == es[j - 1]);
        }
        if j < es.len() {
            assert(r[j - m - 1] == es[j]);
        }
        lemma_child_index_unique(r, q, j - m - 1);
    }
}

} // verus!
