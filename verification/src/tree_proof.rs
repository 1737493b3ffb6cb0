//! How the tree changes when pages change.

use vstd::prelude::*;

use crate::internal::{child_index, child_of};
use crate::key::{group_key_order, key_le, key_lt, law_key_total};
use crate::layout::{entries, has_key, lemma_rank, link, page_ok, rank, sorted, Entry};
use crate::tree::{
    children_apart, children_own, contents, find, first_leaf, kid, owns, subtree, top, tree_ok,
    within, Pages, Spot,
};

verus! {

// Children.

/// The separators around the child that holds `k`.
pub proof fn lemma_child_index(es: Seq<Entry>, k: Seq<u8>)
    requires
        sorted(es),
    ensures
        0 <= child_index(es, k) <= es.len(),
        forall|i: int| 0 <= i < child_index(es, k) ==> key_le(#[trigger] es[i].0, k),
        forall|i: int| child_index(es, k) <= i < es.len() ==> key_lt(k, #[trigger] es[i].0),
{
    broadcast use group_key_order;

    lemma_rank(es, k);
    let r = rank(es, k);
    assert forall|i: int| child_index(es, k) <= i < es.len() implies key_lt(k, #[trigger] es[i].0) by {
        law_key_total(es[i].0, k);
        if has_key(es, k) {
            assert(key_lt(es[r].0, es[i].0));
        } else {
            if es[i].0 == k {
                assert(has_key(es, k));
            }
        }
    }
}

/// The child between whose separators `k` lies is the one that holds it.
pub proof fn lemma_child_index_unique(es: Seq<Entry>, k: Seq<u8>, i: int)
    requires
        sorted(es),
        0 <= i <= es.len(),
        i > 0 ==> key_le(es[i - 1].0, k),
        i < es.len() ==> key_lt(k, es[i].0),
    ensures
        i == child_index(es, k),
{
    broadcast use group_key_order;

    lemma_child_index(es, k);
    let c = child_index(es, k);
    if i < c {
        assert(key_le(es[i].0, k));
    } else if c < i {
        assert(key_lt(k, es[c].0));
        if c < i - 1 {
            assert(key_lt(es[c].0, es[i - 1].0));
        }
    }
}

/// A key of a spot belongs to the child that holds it.
pub proof fn lemma_kid_within(t: Pages, leftmost: u32, es: Seq<Entry>, s: Spot, k: Seq<u8>)
    requires
        sorted(es),
        within(k, s),
    ensures
        0 <= child_index(es, k) <= es.len(),
        within(k, kid(t, leftmost, es, s, child_index(es, k))),
{
    lemma_child_index(es, k);
    let i = child_index(es, k);
    if i > 0 {
        assert(key_le(es[i - 1].0, k));
    }
}

/// A page owns itself and what its children own.
pub proof fn lemma_owns(t: Pages, id: u32, height: nat, x: u32)
    ensures
        owns(t, id, height, x) <==> x == id || height > 1 && children_own(
            t,
            link(t[id]),
            entries(t[id]),
            (height - 1) as nat,
            x,
        ),
{
    let es = entries(t[id]);
    let lm = link(t[id]);
    let h = (height - 1) as nat;
    if height > 1 && children_own(t, lm, es, h, x) {
        let i = choose|i: int| 0 <= i <= es.len() && owns(t, child_of(lm, es, i), h, x);
        let c = child_of(lm, es, i);
        assert(owns(t, c, h, x));
    }
    if owns(t, id, height, x) && x != id {
        let i = choose|i: int|
            0 <= i <= es.len() && owns(t, #[trigger] child_of(lm, es, i), h, x);
        assert(owns(t, child_of(lm, es, i), h, x));
    }
}

// Pages outside a subtree do not matter to it.

/// `x` has the same page in both sets, or none in either.
pub open spec fn same_at(t: Pages, u: Pages, x: u32) -> bool {
    t.contains_key(x) == u.contains_key(x) && t[x] == u[x]
}

/// All pages at and below page `id` are the same in both sets.
pub open spec fn same_below(t: Pages, u: Pages, id: u32, height: nat) -> bool {
    forall|x: u32| #[trigger] owns(t, id, height, x) ==> same_at(t, u, x)
}

pub proof fn lemma_same_below_child(t: Pages, u: Pages, id: u32, height: nat, i: int)
    requires
        same_below(t, u, id, height),
        height >= 2,
        0 <= i <= entries(t[id]).len(),
    ensures
        u[id] == t[id],
        same_below(t, u, child_of(link(t[id]), entries(t[id]), i), (height - 1) as nat),
{
    assert(owns(t, id, height, id));
    assert(same_at(t, u, id));
    let c = child_of(link(t[id]), entries(t[id]), i);
    assert forall|x: u32| #[trigger] owns(t, c, (height - 1) as nat, x) implies same_at(t, u, x) by {
        assert(children_own(t, link(t[id]), entries(t[id]), (height - 1) as nat, x));
        lemma_owns(t, id, height, x);
    }
}

pub proof fn lemma_frame_shape(t: Pages, u: Pages, id: u32, height: nat)
    requires
        same_below(t, u, id, height),
    ensures
        first_leaf(u, id, height) == first_leaf(t, id, height),
        forall|x: u32| #[trigger] owns(u, id, height, x) <==> owns(t, id, height, x),
    decreases height,
{
    if height > 1 {
        let es = entries(t[id]);
        let lm = link(t[id]);
        let h = (height - 1) as nat;
        assert forall|i: int| 0 <= i <= es.len() implies forall|x: u32|
            owns(u, #[trigger] child_of(lm, es, i), h, x) <==> owns(t, child_of(lm, es, i), h, x) by {
            lemma_same_below_child(t, u, id, height, i);
            lemma_frame_shape(t, u, child_of(lm, es, i), h);
        }
        lemma_same_below_child(t, u, id, height, 0);
        lemma_frame_shape(t, u, child_of(lm, es, 0), h);
        assert forall|x: u32| #[trigger] owns(u, id, height, x) <==> owns(t, id, height, x) by {
            if children_own(u, lm, es, h, x) {
                let i = choose|i: int| 0 <= i <= es.len() && owns(u, child_of(lm, es, i), h, x);
                let c = child_of(lm, es, i);
                assert(owns(t, c, h, x));
            }
            if children_own(t, lm, es, h, x) {
                let i = choose|i: int| 0 <= i <= es.len() && owns(t, child_of(lm, es, i), h, x);
                let c = child_of(lm, es, i);
                assert(owns(u, c, h, x));
            }
            assert(children_own(u, lm, es, h, x) == children_own(t, lm, es, h, x));
            lemma_owns(t, id, height, x);
            lemma_owns(u, id, height, x);
        }
    }
}

pub proof fn lemma_frame_find(t: Pages, u: Pages, s: Spot, k: Seq<u8>)
    requires
        subtree(t, s),
        same_below(t, u, s.id, s.height),
    ensures
        find(u, s.id, s.height, k) == find(t, s.id, s.height, k),
    decreases s.height,
{
    assert(owns(t, s.id, s.height, s.id));
    assert(same_at(t, u, s.id));
    if s.height > 1 {
        let es = entries(t[s.id]);
        lemma_child_index(es, k);
        let i = child_index(es, k);
        lemma_same_below_child(t, u, s.id, s.height, i);
        lemma_frame_find(t, u, kid(t, link(t[s.id]), es, s, i), k);
    }
}

pub proof fn lemma_frame(t: Pages, u: Pages, s: Spot)
    requires
        subtree(t, s),
        same_below(t, u, s.id, s.height),
    ensures
        subtree(u, s),
        first_leaf(u, s.id, s.height) == first_leaf(t, s.id, s.height),
        forall|x: u32|
            #[trigger] owns(u, s.id, s.height, x) <==> owns(t, s.id, s.height, x),
        forall|k: Seq<u8>|
            #[trigger] find(u, s.id, s.height, k) == find(t, s.id, s.height, k),
    decreases s.height,
{
    assert(owns(t, s.id, s.height, s.id));
    assert(same_at(t, u, s.id));
    lemma_frame_shape(t, u, s.id, s.height);
    assert forall|k: Seq<u8>| #[trigger] find(u, s.id, s.height, k) == find(
        t,
        s.id,
        s.height,
        k,
    ) by {
        lemma_frame_find(t, u, s, k);
    }
    if s.height > 1 {
        let es = entries(t[s.id]);
        let lm = link(t[s.id]);
        let h = (s.height - 1) as nat;
        assert forall|i: int| 0 <= i <= es.len() implies {
            &&& subtree(u, #[trigger] kid(u, lm, es, s, i))
            &&& forall|x: u32|
                owns(u, child_of(lm, es, i), h, x) <==> owns(t, child_of(lm, es, i), h, x)
        } by {
            lemma_same_below_child(t, u, s.id, s.height, i);
            lemma_frame(t, u, kid(t, lm, es, s, i));
            if i < es.len() {
                lemma_same_below_child(t, u, s.id, s.height, i + 1);
                lemma_frame_shape(t, u, child_of(lm, es, i + 1), h);
            }
            assert(kid(u, lm, es, s, i) == kid(t, lm, es, s, i));
        }
        assert forall|i: int, j: int, x: u32|
            0 <= i < j <= es.len() && #[trigger] owns(u, child_of(lm, es, i), h, x) implies !(
        #[trigger] owns(u, child_of(lm, es, j), h, x)) by {
            let ki = kid(u, lm, es, s, i);
            let kj = kid(u, lm, es, s, j);
            assert(owns(t, child_of(lm, es, i), h, x));
            assert(!owns(t, child_of(lm, es, j), h, x));
        }
        assert(children_apart(u, lm, es, h));
        if children_own(u, lm, es, h, s.id) {
            let i = choose|i: int| 0 <= i <= es.len() && owns(u, child_of(lm, es, i), h, s.id);
            let k = kid(u, lm, es, s, i);
            assert(owns(t, child_of(lm, es, i), h, s.id));
            assert(children_own(t, lm, es, h, s.id));
        }
    }
}

/// The pages at and below a spot of a tree are there and well formed.
pub proof fn lemma_owned_here(t: Pages, s: Spot, x: u32)
    requires
        subtree(t, s),
        owns(t, s.id, s.height, x),
    ensures
        t.contains_key(x),
        page_ok(t[x]),
    decreases s.height,
{
    if x != s.id {
        let lm = link(t[s.id]);
        let es = entries(t[s.id]);
        let h = (s.height - 1) as nat;
        lemma_owns(t, s.id, s.height, x);
        let i = choose|i: int| 0 <= i <= es.len() && #[trigger] owns(t, child_of(lm, es, i), h, x);
        assert(subtree(t, kid(t, lm, es, s, i)));
        lemma_owned_here(t, kid(t, lm, es, s, i), x);
    }
}

/// Trees with the same pages are the same.
pub proof fn lemma_same_tree(t: Pages, u: Pages, root: u32, height: nat, num_pages: int)
    requires
        tree_ok(t, root, height, num_pages),
        forall|x: u32| 1 <= x < num_pages && t.contains_key(x) ==> #[trigger] same_at(t, u, x),
    ensures
        tree_ok(u, root, height, num_pages),
        contents(u, root, height) == contents(t, root, height),
{
    if height > 0 {
        let s = top(root, height);
        assert forall|x: u32| #[trigger] owns(t, root, height, x) implies same_at(t, u, x) by {
            lemma_owned_here(t, s, x);
        }
        lemma_frame(t, u, s);
    }
    assert(contents(u, root, height) =~= contents(t, root, height));
}

} // verus!
