//! A change of the tree, carried from the leaf that it starts in up to the root.

use vstd::prelude::*;

use crate::byte::{u32_at, u32_bytes};
use crate::internal::{
    child_index, child_of, internal_ok, lemma_child_bytes, lemma_child_for, lemma_separator_len,
    lemma_separators_upsert, separator_ok, MAX_SEPARATOR,
};
use crate::key::{group_key_order, key_le, key_lt, law_empty_key_first, law_key_total};
use crate::layout::{
    entries, law_lookup_after_put, law_lookup_after_remove, lemma_lookup_cut, lemma_rank, link,
    rank, upsert, without, Entry,
};
use crate::leaf::{entry_fits, leaf_ok};
use crate::tree::{
    children_ok, children_own, contents, find, first_leaf, kid, owns, step, subtree, top, tree_ok,
    walk, within, Contents, Pages, Spot,
};
use crate::tree_change::{
    answer, left_part, lemma_children_cut, lemma_children_frame, lemma_children_one,
    lemma_children_two, one, right_part, two, untouched,
};
use crate::tree_proof::{lemma_child_index_unique, lemma_owns, same_at};
use crate::tree_read::stop;

verus! {

/// A leaf that takes a new value under `k`, or loses it.
pub proof fn lemma_leaf_one(
    t: Pages,
    s: Spot,
    k: Seq<u8>,
    nv: Option<Seq<u8>>,
    nb: Seq<u8>,
    a: int,
)
    requires
        subtree(t, s),
        s.height == 1,
        within(k, s),
        leaf_ok(nb),
        link(nb) == link(t[s.id]),
        entries(nb) == match nv {
            Some(v) => upsert(entries(t[s.id]), k, v),
            None => without(entries(t[s.id]), k),
        },
    ensures
        one(t, t.insert(s.id, nb), s, k, nv, a, a),
{
    let u = t.insert(s.id, nb);
    let es = entries(t[s.id]);
    let ns = entries(nb);
    lemma_rank(es, k);
    assert forall|i: int| 0 <= i < ns.len() implies within(#[trigger] ns[i].0, s) by {
        let r = rank(es, k);
        match nv {
            Some(v) => {
                if i != r {
                    let j = if ns.len() > es.len() && i > r {
                        i - 1
                    } else {
                        i
                    };
                    assert(ns[i] == es[j]);
                }
            },
            None => {
                let j = if ns.len() < es.len() && i >= r {
                    i + 1
                } else {
                    i
                };
                assert(ns[i] == es[j]);
            },
        }
    }
    assert forall|q: Seq<u8>|
        within(q, s) implies #[trigger] find(u, s.id, s.height, q) == answer(
        t,
        s.id,
        s.height,
        k,
        nv,
        q,
    ) by {
        match nv {
            Some(v) => law_lookup_after_put(es, k, v, q),
            None => law_lookup_after_remove(es, k, q),
        }
    }
}

/// A leaf that takes a new value under `k` and is parted in front of entry `m`.
pub proof fn lemma_leaf_two(
    t: Pages,
    s: Spot,
    k: Seq<u8>,
    v: Seq<u8>,
    lb: Seq<u8>,
    rb: Seq<u8>,
    m: int,
    r: u32,
)
    requires
        subtree(t, s),
        s.height == 1,
        within(k, s),
        s.id < r,
        leaf_ok(lb),
        leaf_ok(rb),
        0 < m < upsert(entries(t[s.id]), k, v).len(),
        entries(lb) == upsert(entries(t[s.id]), k, v).take(m),
        entries(rb) == upsert(entries(t[s.id]), k, v).skip(m),
        link(lb) == r,
        link(rb) == link(t[s.id]),
    ensures
        two(
            t,
            t.insert(s.id, lb).insert(r, rb),
            s,
            k,
            Some(v),
            r as int,
            r + 1,
            upsert(entries(t[s.id]), k, v)[m].0,
            r,
        ),
{
    broadcast use group_key_order;

    let u = t.insert(s.id, lb).insert(r, rb);
    let es = entries(t[s.id]);
    let all = upsert(es, k, v);
    let sep = all[m].0;
    lemma_rank(es, k);
    crate::layout::lemma_upsert_sorted(es, k, v);
    assert forall|i: int| 0 <= i < all.len() implies within(#[trigger] all[i].0, s) by {
        let p = rank(es, k);
        if i != p {
            let j = if all.len() > es.len() && i > p {
                i - 1
            } else {
                i
            };
            assert(all[i] == es[j]);
        }
    }
    assert(key_lt(s.lo, sep)) by {
        assert(within(all[0].0, s));
        assert(key_lt(all[0].0, all[m].0));
    }
    assert(entry_fits(entries(rb)[0].0, entries(rb)[0].1));
    assert(entries(rb)[0] == all[m]);
    assert(subtree(u, left_part(u, s, sep, r))) by {
        assert forall|i: int| 0 <= i < entries(lb).len() implies within(
            #[trigger] entries(lb)[i].0,
            left_part(u, s, sep, r),
        ) by {
            assert(entries(lb)[i] == all[i]);
            assert(key_lt(all[i].0, all[m].0));
        }
    }
    assert(subtree(u, right_part(s, sep, r))) by {
        assert forall|i: int| 0 <= i < entries(rb).len() implies within(
            #[trigger] entries(rb)[i].0,
            right_part(s, sep, r),
        ) by {
            assert(entries(rb)[i] == all[m + i]);
        }
    }
    assert forall|q: Seq<u8>|
        within(q, s) && key_lt(q, sep) implies #[trigger] find(u, s.id, s.height, q) == answer(
        t,
        s.id,
        s.height,
        k,
        Some(v),
        q,
    ) by {
        law_lookup_after_put(es, k, v, q);
        lemma_lookup_cut(all, m, q);
    }
    assert forall|q: Seq<u8>|
        within(q, s) && key_le(sep, q) implies #[trigger] find(u, r, s.height, q) == answer(
        t,
        s.id,
        s.height,
        k,
        Some(v),
        q,
    ) by {
        law_lookup_after_put(es, k, v, q);
        lemma_lookup_cut(all, m, q);
    }
}

/// A change that stays below a child stays below its parent.
pub proof fn lemma_up_one(
    t: Pages,
    u: Pages,
    s: Spot,
    k: Seq<u8>,
    nv: Option<Seq<u8>>,
    a: int,
    b: int,
)
    requires
        subtree(t, s),
        s.height >= 2,
        within(k, s),
        one(t, u, step(t, s, k), k, nv, a, b),
        forall|x: u32| #[trigger] owns(t, s.id, s.height, x) ==> x < a,
    ensures
        one(t, u, s, k, nv, a, b),
{
    let lm = link(t[s.id]);
    let es = entries(t[s.id]);
    let h = (s.height - 1) as nat;
    let c = step(t, s, k);
    let i = child_index(es, k);
    crate::tree_proof::lemma_kid_within(t, lm, es, s, k);
    assert forall|x: u32| owns(t, c.id, h, x) implies #[trigger] owns(
        t,
        s.id,
        s.height,
        x,
    ) by {
        assert(owns(t, child_of(lm, es, i), h, x));
        assert(children_own(t, lm, es, h, x));
        lemma_owns(t, s.id, s.height, x);
    }
    assert forall|x: u32| #[trigger] children_own(t, lm, es, h, x) implies x < a by {
        lemma_owns(t, s.id, s.height, x);
    }
    lemma_children_one(t, u, lm, es, s, k, nv, a, b);
    assert(same_at(t, u, s.id)) by {
        lemma_owns(t, s.id, s.height, s.id);
        if owns(t, c.id, h, s.id) {
            assert(owns(t, child_of(lm, es, i), h, s.id));
            assert(children_own(t, lm, es, h, s.id));
        }
    }
    lemma_owns(t, s.id, s.height, s.id);
    assert(!children_own(u, lm, es, h, s.id));
    assert forall|x: u32| #[trigger] owns(u, s.id, s.height, x) implies owns(
        t,
        s.id,
        s.height,
        x,
    ) || a <= x < b by {
        lemma_owns(u, s.id, s.height, x);
        lemma_owns(t, s.id, s.height, x);
    }
    assert(untouched(t, u, s, a, b)) by {
        assert forall|x: u32| !owns(t, s.id, s.height, x) && !(a <= x < b) implies #[trigger]
        same_at(t, u, x) by {
            assert(!owns(t, c.id, h, x));
        }
    }
    assert forall|q: Seq<u8>|
        within(q, s) implies #[trigger] find(u, s.id, s.height, q) == answer(
        t,
        s.id,
        s.height,
        k,
        nv,
        q,
    ) by {
        let j = child_index(es, q);
    }
}

/// The child of `s` that holds `k` is parted at `sep`, with page `r` as its right part.
pub open spec fn step_parted(
    t: Pages,
    u: Pages,
    s: Spot,
    k: Seq<u8>,
    nv: Option<Seq<u8>>,
    a: int,
    b: int,
    sep: Seq<u8>,
    r: u32,
) -> bool {
    &&& subtree(t, s)
    &&& s.height >= 2
    &&& within(k, s)
    &&& a <= b
    &&& two(t, u, step(t, s, k), k, nv, a, b, sep, r)
    &&& forall|x: u32| #[trigger] owns(t, s.id, s.height, x) ==> x < a
}

/// The separators of page `b` with `sep` and the child `r` among them.
pub open spec fn with_child(b: Seq<u8>, sep: Seq<u8>, r: u32) -> Seq<Entry> {
    upsert(entries(b), sep, u32_bytes(r))
}

/// The children of a page one of whose children was parted.
#[verifier::spinoff_prover]
#[verifier::rlimit(60)]
pub proof fn lemma_step_parted(
    t: Pages,
    u: Pages,
    s: Spot,
    k: Seq<u8>,
    nv: Option<Seq<u8>>,
    a: int,
    b: int,
    sep: Seq<u8>,
    r: u32,
)
    requires
        step_parted(t, u, s, k, nv, a, b, sep, r),
    ensures
        !crate::layout::has_key(entries(t[s.id]), sep),
        sep.len() <= MAX_SEPARATOR,
        same_at(t, u, s.id),
        s.id < a,
        ({
            let lm = link(t[s.id]);
            let ns = with_child(t[s.id], sep, r);
            let h = (s.height - 1) as nat;
            &&& children_ok(u, lm, ns, s)
            &&& first_leaf(u, lm, h) == first_leaf(t, lm, h)
            &&& forall|x: u32| #[trigger]
                children_own(u, lm, ns, h, x) ==> x != s.id && (owns(t, s.id, s.height, x) || a <= x
                    < b)
            &&& forall|q: Seq<u8>|
                #![trigger child_index(ns, q)]
                within(q, s) ==> find(u, child_of(lm, ns, child_index(ns, q)), h, q) == answer(
                    t,
                    s.id,
                    s.height,
                    k,
                    nv,
                    q,
                )
        }),
        forall|x: u32|
            !owns(t, s.id, s.height, x) && !(a <= x < b) ==> #[trigger] same_at(t, u, x),
{
    let lm = link(t[s.id]);
    let es = entries(t[s.id]);
    let ns = with_child(t[s.id], sep, r);
    let h = (s.height - 1) as nat;
    let c = step(t, s, k);
    let i = child_index(es, k);
    crate::tree_proof::lemma_kid_within(t, lm, es, s, k);
    lemma_owns(t, s.id, s.height, s.id);
    assert forall|x: u32| owns(t, c.id, h, x) implies x != s.id && #[trigger] owns(
        t,
        s.id,
        s.height,
        x,
    ) by {
        assert(owns(t, child_of(lm, es, i), h, x));
        assert(children_own(t, lm, es, h, x));
        lemma_owns(t, s.id, s.height, x);
    }
    assert forall|x: u32| #[trigger] children_own(t, lm, es, h, x) implies x < a && x != s.id
        && owns(t, s.id, s.height, x) by {
        lemma_owns(t, s.id, s.height, x);
    }
    lemma_children_two(t, u, lm, es, s, k, nv, a, b, sep, r);
    assert(!owns(t, c.id, h, s.id));
    assert(same_at(t, u, s.id));
    assert forall|x: u32| !owns(t, s.id, s.height, x) && !(a <= x < b) implies #[trigger] same_at(
        t,
        u,
        x,
    ) by {
        assert(!owns(t, c.id, h, x));
    }
    assert forall|q: Seq<u8>|
        #![trigger child_index(ns, q)]
        within(q, s) implies find(u, child_of(lm, ns, child_index(ns, q)), h, q) == answer(
        t,
        s.id,
        s.height,
        k,
        nv,
        q,
    ) by {
        let j = child_index(es, q);
    }
}

/// A child was parted, and its parent takes the separator.
#[verifier::spinoff_prover]
#[verifier::rlimit(60)]
pub proof fn lemma_up_fit(
    t: Pages,
    u: Pages,
    s: Spot,
    k: Seq<u8>,
    nv: Option<Seq<u8>>,
    a: int,
    b: int,
    sep: Seq<u8>,
    r: u32,
    nb: Seq<u8>,
)
    requires
        step_parted(t, u, s, k, nv, a, b, sep, r),
        internal_ok(nb),
        link(nb) == link(t[s.id]),
        entries(nb) == with_child(t[s.id], sep, r),
    ensures
        one(t, u.insert(s.id, nb), s, k, nv, a, b),
{
    let w = u.insert(s.id, nb);
    let lm = link(t[s.id]);
    let ns = with_child(t[s.id], sep, r);
    let h = (s.height - 1) as nat;
    lemma_step_parted(t, u, s, k, nv, a, b, sep, r);
    lemma_owns(t, s.id, s.height, s.id);
    assert forall|x: u32| #[trigger] children_own(u, lm, ns, h, x) implies same_at(u, w, x) by {}
    lemma_children_frame(u, w, lm, ns, s);
    assert forall|x: u32| #[trigger] owns(w, s.id, s.height, x) implies owns(
        t,
        s.id,
        s.height,
        x,
    ) || a <= x < b by {
        lemma_owns(w, s.id, s.height, x);
    }
    assert(untouched(t, w, s, a, b)) by {
        assert forall|x: u32| !owns(t, s.id, s.height, x) && !(a <= x < b) implies #[trigger]
        same_at(t, w, x) by {
            assert(same_at(t, u, x));
        }
    }
    assert forall|q: Seq<u8>|
        within(q, s) implies #[trigger] find(w, s.id, s.height, q) == answer(
        t,
        s.id,
        s.height,
        k,
        nv,
        q,
    ) by {
        let j = child_index(ns, q);
    }
}

/// A child was parted, and its parent, too full for the separator, is parted around entry `m`.
#[verifier::spinoff_prover]
#[verifier::rlimit(60)]
pub proof fn lemma_up_split(
    t: Pages,
    u: Pages,
    s: Spot,
    k: Seq<u8>,
    nv: Option<Seq<u8>>,
    a: int,
    sep: Seq<u8>,
    r: u32,
    lb: Seq<u8>,
    rb: Seq<u8>,
    m: int,
    p: u32,
)
    requires
        step_parted(t, u, s, k, nv, a, p as int, sep, r),
        0 <= m < with_child(t[s.id], sep, r).len(),
        internal_ok(lb),
        internal_ok(rb),
        link(lb) == link(t[s.id]),
        entries(lb) == with_child(t[s.id], sep, r).take(m),
        link(rb) == u32_at(with_child(t[s.id], sep, r)[m].1, 0),
        entries(rb) == with_child(t[s.id], sep, r).skip(m + 1),
    ensures
        two(
            t,
            u.insert(s.id, lb).insert(p, rb),
            s,
            k,
            nv,
            a,
            p + 1,
            with_child(t[s.id], sep, r)[m].0,
            p,
        ),
{
    broadcast use group_key_order;

    let b = p as int;
    let w = u.insert(s.id, lb).insert(p, rb);
    let lm = link(t[s.id]);
    let ns = with_child(t[s.id], sep, r);
    let h = (s.height - 1) as nat;
    let mid = ns[m].0;
    let rlm = child_of(lm, ns, m + 1);
    let l = ns.take(m);
    let rr = ns.skip(m + 1);
    lemma_step_parted(t, u, s, k, nv, a, b, sep, r);
    lemma_owns(t, s.id, s.height, s.id);
    lemma_child_bytes(r);
    lemma_separators_upsert(entries(t[s.id]), sep, u32_bytes(r));
    lemma_separator_len(t[s.id], sep, u32_bytes(r), m);
    assert(separator_ok(ns[m]));
    lemma_children_cut(u, lm, ns, s, m);
    let ls = Spot { hi: Some(mid), next: first_leaf(u, rlm, h), ..s };
    let rs = Spot { lo: mid, ..s };
    assert forall|x: u32| #[trigger] children_own(u, lm, ns, h, x) implies same_at(u, w, x) && x
        != p by {}
    assert forall|x: u32| #[trigger] children_own(u, lm, l, h, x) implies same_at(u, w, x) by {
        assert(children_own(u, lm, ns, h, x));
    }
    assert forall|x: u32| #[trigger] children_own(u, rlm, rr, h, x) implies same_at(u, w, x) by {
        assert(children_own(u, lm, ns, h, x));
    }
    lemma_children_frame(u, w, lm, l, ls);
    lemma_children_frame(u, w, rlm, rr, rs);
    assert(first_leaf(w, p, s.height) == first_leaf(u, rlm, h));
    let lp = left_part(w, s, mid, p);
    let rp = right_part(s, mid, p);
    assert(lp == ls);
    assert(subtree(w, lp)) by {
        assert(!children_own(w, lm, l, h, s.id));
    }
    assert(subtree(w, rp)) by {
        assert(!children_own(w, rlm, rr, h, p));
        lemma_children_respot(w, rlm, rr, rs, rp);
    }
    assert forall|x: u32| #[trigger] owns(w, s.id, s.height, x) implies (owns(
        t,
        s.id,
        s.height,
        x,
    ) || a <= x < b + 1) && !owns(w, p, s.height, x) by {
        lemma_owns(w, s.id, s.height, x);
        lemma_owns(w, p, s.height, x);
    }
    assert forall|x: u32| #[trigger] owns(w, p, s.height, x) implies owns(
        t,
        s.id,
        s.height,
        x,
    ) || a <= x < b + 1 by {
        lemma_owns(w, p, s.height, x);
    }
    assert(untouched(t, w, s, a, b + 1)) by {
        assert forall|x: u32|
            !owns(t, s.id, s.height, x) && !(a <= x < b + 1) implies #[trigger] same_at(
            t,
            w,
            x,
        ) by {
            assert(same_at(t, u, x));
        }
    }
    assert forall|q: Seq<u8>|
        within(q, s) && key_lt(q, mid) implies #[trigger] find(w, s.id, s.height, q) == answer(
        t,
        s.id,
        s.height,
        k,
        nv,
        q,
    ) by {
        let j = child_index(ns, q);
        let i = child_index(l, q);
    }
    assert forall|q: Seq<u8>|
        within(q, s) && key_le(mid, q) implies #[trigger] find(w, p, s.height, q) == answer(
        t,
        s.id,
        s.height,
        k,
        nv,
        q,
    ) by {
        let j = child_index(ns, q);
        let i = child_index(rr, q);
    }
}

/// Whether children are well-formed does not depend on the page that they are below.
proof fn lemma_children_respot(t: Pages, lm: u32, es: Seq<Entry>, s: Spot, z: Spot)
    requires
        children_ok(t, lm, es, s),
        z == (Spot { id: z.id, ..s }),
    ensures
        children_ok(t, lm, es, z),
{
    assert forall|i: int| 0 <= i <= es.len() implies subtree(t, #[trigger] kid(t, lm, es, z, i)) by {
        assert(kid(t, lm, es, z, i) == kid(t, lm, es, s, i));
    }
}

/// A place on the way down to the leaf for `k`.
pub proof fn lemma_walk(t: Pages, s: Spot, k: Seq<u8>, d: nat)
    requires
        subtree(t, s),
        within(k, s),
        d < s.height,
    ensures
        subtree(t, walk(t, s, k, d)),
        within(k, walk(t, s, k, d)),
        walk(t, s, k, d).height == s.height - d,
        walk(t, s, k, d).id == stop(t, s.id, k, d),
        forall|x: u32| #[trigger]
            owns(t, walk(t, s, k, d).id, (s.height - d) as nat, x) ==> owns(t, s.id, s.height, x),
    decreases d,
{
    if d > 0 {
        lemma_walk(t, s, k, (d - 1) as nat);
        let z = walk(t, s, k, (d - 1) as nat);
        let lm = link(t[z.id]);
        let es = entries(t[z.id]);
        let h = (z.height - 1) as nat;
        let i = child_index(es, k);
        crate::tree_proof::lemma_kid_within(t, lm, es, z, k);
        lemma_child_for(t[z.id], k);
        assert(subtree(t, kid(t, lm, es, z, i)));
        let w = walk(t, s, k, d);
        assert forall|x: u32| #[trigger] owns(t, w.id, (s.height - d) as nat, x) implies owns(
            t,
            s.id,
            s.height,
            x,
        ) by {
            assert(owns(t, child_of(lm, es, i), h, x));
            assert(children_own(t, lm, es, h, x));
            lemma_owns(t, z.id, z.height, x);
            assert(owns(t, z.id, (s.height - (d - 1)) as nat, x));
        }
    }
}

/// A change below a place on the way down to `k` is a change below the start.
pub proof fn lemma_climb_one(
    t: Pages,
    u: Pages,
    s: Spot,
    k: Seq<u8>,
    nv: Option<Seq<u8>>,
    a: int,
    b: int,
    d: nat,
)
    requires
        subtree(t, s),
        within(k, s),
        d < s.height,
        forall|x: u32| #[trigger] owns(t, s.id, s.height, x) ==> x < a,
        one(t, u, walk(t, s, k, d), k, nv, a, b),
    ensures
        one(t, u, s, k, nv, a, b),
    decreases d,
{
    if d > 0 {
        lemma_walk(t, s, k, (d - 1) as nat);
        let z = walk(t, s, k, (d - 1) as nat);
        assert forall|x: u32| #[trigger] owns(t, z.id, z.height, x) implies x < a by {
            assert(owns(t, z.id, (s.height - (d - 1)) as nat, x));
            assert(owns(t, s.id, s.height, x));
        }
        lemma_up_one(t, u, z, k, nv, a, b);
        lemma_climb_one(t, u, s, k, nv, a, b, (d - 1) as nat);
    }
}

// The root.

/// The contents with `nv` under `k`.
pub open spec fn updated(c: Contents, k: Seq<u8>, nv: Option<Seq<u8>>) -> Contents {
    match nv {
        Some(v) => c.insert(k, v),
        None => c.remove(k),
    }
}

/// A change that leaves the root where it is.
pub proof fn lemma_root_one(
    t: Pages,
    u: Pages,
    root: u32,
    height: nat,
    k: Seq<u8>,
    nv: Option<Seq<u8>>,
    a: int,
    b: int,
)
    requires
        height >= 1,
        1 <= a <= b,
        tree_ok(t, root, height, a),
        one(t, u, top(root, height), k, nv, a, b),
    ensures
        tree_ok(u, root, height, b),
        contents(u, root, height) == updated(contents(t, root, height), k, nv),
{
    let s = top(root, height);
    assert forall|x: u32| #[trigger] owns(u, root, height, x) implies 1 <= x < b by {
        if owns(t, root, height, x) {
        }
    }
    assert forall|q: Seq<u8>| #[trigger]
        find(u, root, height, q) == answer(t, root, height, k, nv, q) by {
        law_empty_key_first(q);
        assert(within(q, s));
    }
    assert(contents(u, root, height) =~= updated(contents(t, root, height), k, nv));
}

/// The root was parted, and a new root takes both parts.
#[verifier::spinoff_prover]
#[verifier::rlimit(60)]
pub proof fn lemma_root_two(
    t: Pages,
    u: Pages,
    root: u32,
    height: nat,
    k: Seq<u8>,
    nv: Option<Seq<u8>>,
    a: int,
    sep: Seq<u8>,
    r: u32,
    nb: Seq<u8>,
    p: u32,
)
    requires
        height >= 1,
        1 <= a <= p,
        tree_ok(t, root, height, a),
        two(t, u, top(root, height), k, nv, a, p as int, sep, r),
        internal_ok(nb),
        link(nb) == root,
        entries(nb) == seq![(sep, u32_bytes(r))],
    ensures
        tree_ok(u.insert(p, nb), p, height + 1, p + 1),
        contents(u.insert(p, nb), p, height + 1) == updated(contents(t, root, height), k, nv),
{
    broadcast use group_key_order;

    let w = u.insert(p, nb);
    let s = top(root, height);
    let z = top(p, height + 1);
    let es = entries(nb);
    lemma_child_bytes(r);
    assert(child_of(root, es, 0) == root);
    assert(child_of(root, es, 1) == r);
    assert(kid(u, root, es, z, 0) == left_part(u, s, sep, r));
    assert(kid(u, root, es, z, 1) == right_part(s, sep, r));
    assert(children_ok(u, root, es, z)) by {
        assert forall|i: int| 0 <= i <= es.len() implies subtree(
            u,
            #[trigger] kid(u, root, es, z, i),
        ) by {
            assert(i == 0 || i == 1);
        }
        assert forall|i: int, j: int, x: u32|
            0 <= i < j <= es.len() && #[trigger] owns(u, child_of(root, es, i), height, x)
            implies !(#[trigger] owns(u, child_of(root, es, j), height, x)) by {
            assert(i == 0 && j == 1);
        }
    }
    assert forall|x: u32| #[trigger] children_own(u, root, es, height, x) implies same_at(u, w, x)
        && 1 <= x < p by {
        let j = choose|j: int| 0 <= j <= es.len() && owns(u, child_of(root, es, j), height, x);
        assert(j == 0 || j == 1);
        if owns(t, root, height, x) {
        }
    }
    lemma_children_frame(u, w, root, es, z);
    assert(!children_own(w, root, es, height, p));
    assert forall|x: u32| #[trigger] owns(w, p, height + 1, x) implies 1 <= x < p + 1 by {
        lemma_owns(w, p, height + 1, x);
    }
    assert forall|q: Seq<u8>| #[trigger]
        find(w, p, height + 1, q) == answer(t, root, height, k, nv, q) by {
        law_empty_key_first(q);
        law_key_total(q, sep);
        assert(within(q, s));
        let i = child_index(es, q);
        if key_lt(q, sep) {
            lemma_child_index_unique(es, q, 0);
        } else {
            lemma_child_index_unique(es, q, 1);
        }
    }
    assert(contents(w, p, height + 1) =~= updated(contents(t, root, height), k, nv));
}

/// A single empty leaf is a tree without entries.
pub proof fn lemma_root_leaf(t: Pages, nb: Seq<u8>, p: u32)
    requires
        p >= 1,
        leaf_ok(nb),
        entries(nb).len() == 0,
        link(nb) == 0,
    ensures
        tree_ok(t.insert(p, nb), p, 1, p + 1),
        contents(t.insert(p, nb), p, 1) == Contents::empty(),
{
    let u = t.insert(p, nb);
    assert forall|q: Seq<u8>| #[trigger] find(u, p, 1, q) is None by {
    }
    assert(contents(u, p, 1) =~= Contents::empty());
}

/// A way down goes on from any place on it.
proof fn lemma_walk_on(t: Pages, s: Spot, k: Seq<u8>, i: nat, j: nat)
    ensures
        walk(t, s, k, i + j) == walk(t, walk(t, s, k, i), k, j),
    decreases j,
{
    if j > 0 {
        lemma_walk_on(t, s, k, i, (j - 1) as nat);
    }
}

/// A way down in a well-formed tree does not come back to a page.
pub proof fn lemma_walk_apart(t: Pages, s: Spot, k: Seq<u8>, i: nat, j: nat)
    requires
        subtree(t, s),
        within(k, s),
        i < j < s.height,
    ensures
        walk(t, s, k, i).id != walk(t, s, k, j).id,
{
    let z = walk(t, s, k, i);
    let w = walk(t, s, k, i + 1);
    let rest = (j - i - 1) as nat;
    lemma_walk(t, s, k, i);
    lemma_walk(t, s, k, i + 1);
    lemma_walk_on(t, s, k, i + 1, rest);
    lemma_walk(t, w, k, rest);
    let x = walk(t, s, k, j).id;
    let es = entries(t[z.id]);
    crate::tree_proof::lemma_child_index(es, k);
    assert(owns(t, x, (w.height - rest) as nat, x));
    assert(owns(t, w.id, w.height, x));
    assert(w.id == child_of(link(t[z.id]), es, child_index(es, k)));
    assert(children_own(t, link(t[z.id]), es, (z.height - 1) as nat, x));
}

} // verus!
