//! What a set of pages means as a tree.
//!
//! The pages of a tree are a map from page ids to bytes. The tree is described from the top:
//! a page at height one is a leaf, a page above is an internal page whose children are one
//! level lower.

use vstd::prelude::*;

use crate::internal::{child_index, child_of, internal_ok};
use crate::key::{key_le, key_lt};
use crate::layout::{entries, link, lookup, sorted, Entry};
use crate::leaf::leaf_ok;

verus! {

/// Page ids and the bytes of their pages.
pub type Pages = Map<u32, Seq<u8>>;

/// Keys and their values.
pub type Contents = Map<Seq<u8>, Seq<u8>>;

/// A place in the tree: a page, its height, the keys that belong there (from `lo` up to but
/// without `hi`), and the leaf that follows the last leaf below it.
pub struct Spot {
    pub id: u32,
    pub height: nat,
    pub lo: Seq<u8>,
    pub hi: Option<Seq<u8>>,
    pub next: u32,
}

/// `k` comes before the bound.
pub open spec fn below(k: Seq<u8>, hi: Option<Seq<u8>>) -> bool {
    match hi {
        Some(h) => key_lt(k, h),
        None => true,
    }
}

/// `k` belongs to the spot.
pub open spec fn within(k: Seq<u8>, s: Spot) -> bool {
    key_le(s.lo, k) && below(k, s.hi)
}

/// The leftmost leaf below a page.
pub open spec fn first_leaf(t: Pages, id: u32, height: nat) -> u32
    decreases height,
{
    if height <= 1 {
        id
    } else {
        first_leaf(t, link(t[id]), (height - 1) as nat)
    }
}

/// Page `x` is at or below page `id`.
pub open spec fn owns(t: Pages, id: u32, height: nat, x: u32) -> bool
    decreases height,
{
    x == id || height > 1 && exists|i: int|
        0 <= i <= entries(t[id]).len() && owns(
            t,
            #[trigger] child_of(link(t[id]), entries(t[id]), i),
            (height - 1) as nat,
            x,
        )
}

/// Page `x` is at or below one of the children, which have the given height.
pub open spec fn children_own(
    t: Pages,
    leftmost: u32,
    es: Seq<Entry>,
    height: nat,
    x: u32,
) -> bool {
    exists|i: int| 0 <= i <= es.len() && #[trigger] owns(t, child_of(leftmost, es, i), height, x)
}

/// The spot of child `i` of a page at spot `s`.
pub open spec fn kid(t: Pages, leftmost: u32, es: Seq<Entry>, s: Spot, i: int) -> Spot {
    Spot {
        id: child_of(leftmost, es, i),
        height: (s.height - 1) as nat,
        lo: if i <= 0 {
            s.lo
        } else {
            es[i - 1].0
        },
        hi: if i >= es.len() {
            s.hi
        } else {
            Some(es[i].0)
        },
        next: if i >= es.len() {
            s.next
        } else {
            first_leaf(t, child_of(leftmost, es, i + 1), (s.height - 1) as nat)
        },
    }
}

/// The pages at and below a spot form a well-formed tree: pages of the right kind, keys where
/// they belong, leaves chained in order, and no page in two places.
pub open spec fn subtree(t: Pages, s: Spot) -> bool
    decreases s.height, 1nat,
{
    &&& s.height >= 1
    &&& s.id != 0
    &&& t.contains_key(s.id)
    &&& if s.height == 1 {
        &&& leaf_ok(t[s.id])
        &&& forall|i: int|
            0 <= i < entries(t[s.id]).len() ==> within(#[trigger] entries(t[s.id])[i].0, s)
        &&& link(t[s.id]) == s.next
    } else {
        &&& internal_ok(t[s.id])
        &&& children_ok(t, link(t[s.id]), entries(t[s.id]), s)
        &&& !children_own(t, link(t[s.id]), entries(t[s.id]), (s.height - 1) as nat, s.id)
    }
}

/// Separators between the bounds of `s` and well-formed children between the separators.
pub open spec fn children_ok(t: Pages, leftmost: u32, es: Seq<Entry>, s: Spot) -> bool
    decreases s.height, 0nat,
{
    &&& s.height >= 2
    &&& sorted(es)
    &&& forall|i: int|
        0 <= i < es.len() ==> key_lt(s.lo, #[trigger] es[i].0) && below(es[i].0, s.hi)
    &&& forall|i: int| 0 <= i <= es.len() ==> subtree(t, #[trigger] kid(t, leftmost, es, s, i))
    &&& children_apart(t, leftmost, es, (s.height - 1) as nat)
}

/// No page is at or below two of the children, which have the given height.
pub open spec fn children_apart(t: Pages, leftmost: u32, es: Seq<Entry>, height: nat) -> bool {
    forall|i: int, j: int, x: u32|
        0 <= i < j <= es.len() && #[trigger] owns(t, child_of(leftmost, es, i), height, x) ==> !(
        #[trigger] owns(t, child_of(leftmost, es, j), height, x))
}

/// The value that the leaf responsible for `k` keeps under it.
pub open spec fn find(t: Pages, id: u32, height: nat, k: Seq<u8>) -> Option<Seq<u8>>
    decreases height,
{
    if height <= 1 {
        lookup(entries(t[id]), k)
    } else {
        find(
            t,
            child_of(link(t[id]), entries(t[id]), child_index(entries(t[id]), k)),
            (height - 1) as nat,
            k,
        )
    }
}

/// One level down towards `k`.
pub open spec fn step(t: Pages, s: Spot, k: Seq<u8>) -> Spot {
    let es = entries(t[s.id]);
    kid(t, link(t[s.id]), es, s, child_index(es, k))
}

/// `d` levels down towards `k`.
pub open spec fn walk(t: Pages, s: Spot, k: Seq<u8>, d: nat) -> Spot
    decreases d,
{
    if d == 0 {
        s
    } else {
        step(t, walk(t, s, k, (d - 1) as nat), k)
    }
}

/// The spot of the root.
pub open spec fn top(root: u32, height: nat) -> Spot {
    Spot { id: root, height, lo: Seq::empty(), hi: None, next: 0 }
}

/// The pages hold a well-formed tree of pages with ids below `num_pages`.
pub open spec fn tree_ok(t: Pages, root: u32, height: nat, num_pages: int) -> bool {
    height == 0 || {
        &&& subtree(t, top(root, height))
        &&& forall|x: u32| #[trigger] owns(t, root, height, x) ==> 1 <= x < num_pages
    }
}

/// What the tree holds.
pub open spec fn contents(t: Pages, root: u32, height: nat) -> Contents {
    Map::new(
        |k: Seq<u8>| height > 0 && find(t, root, height, k) is Some,
        |k: Seq<u8>| find(t, root, height, k)->0,
    )
}

} // verus!
