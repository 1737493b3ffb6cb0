//! What the tree holds while the split of a leaf is carried up to the root.

use vstd::prelude::*;

use crate::byte::u32_bytes;
use crate::db::{held, sound};
use crate::files::Disk;
use crate::growth::{node_split, node_took, page_written, plain_path};
use crate::internal::{internal_ok, middle};
use crate::key::law_empty_key_first;
use crate::layout::{entries, has_key, link, upsert};
use crate::leaf::{entry_fits, leaf_ok};
use crate::meta::Meta;
use crate::pager::FilePager;
use crate::tree::{owns, subtree, top, walk, within, Pages, Spot};
use crate::tree_change::two;
use crate::tree_climb::{
    lemma_climb_one, lemma_leaf_one, lemma_leaf_two, lemma_root_one, lemma_root_two,
    lemma_step_parted, lemma_up_fit, lemma_up_split, lemma_walk, lemma_walk_apart, step_parted,
    with_child,
};
use crate::tree_read::{descend, lemma_descend, lemma_stop_leaf, part_of, stop, trail, Descent};

verus! {

/// The leaf that the way down ends in is the leaf for `key`.
pub proof fn lemma_leaf_spot(p: FilePager, disk: Disk, key: Seq<u8>, leaf_id: u32)
    requires
        sound(p, disk),
        p.meta.height >= 1,
        descend(p.store(), p.meta.root, p.meta.height as nat, Some(key)) == Descent::Leaf(leaf_id),
    ensures
        ({
            let t = p.pages(disk);
            let h = p.meta.height as nat;
            let s = top(p.meta.root, h);
            let z = walk(t, s, key, (h - 1) as nat);
            &&& z.id == leaf_id
            &&& z.height == 1
            &&& subtree(t, s)
            &&& subtree(t, z)
            &&& within(key, s)
            &&& within(key, z)
            &&& leaf_id < p.meta.num_pages
            &&& forall|x: u32| #[trigger] owns(t, s.id, s.height, x) ==> x < p.meta.num_pages
        }),
{
    let t = p.pages(disk);
    let h = p.meta.height as nat;
    let s = top(p.meta.root, h);
    law_empty_key_first(key);
    p.lemma_store(disk);
    lemma_descend(p.store(), t, s, Some(key));
    lemma_walk(t, s, key, (h - 1) as nat);
    assert forall|j: nat| j < h - 1 implies internal_ok(t[#[trigger] stop(t, s.id, key, j)]) by {
        lemma_walk(t, s, key, j);
    }
    lemma_stop_leaf(t, s.id, h, key, (h - 1) as nat);
}

/// A value that went into its leaf.
pub proof fn lemma_put(
    was: FilePager,
    now: FilePager,
    disk: Disk,
    key: Seq<u8>,
    value: Seq<u8>,
    leaf_id: u32,
    pb: Seq<u8>,
    nb: Seq<u8>,
)
    requires
        sound(was, disk),
        was.meta.height >= 1,
        descend(was.store(), was.meta.root, was.meta.height as nat, Some(key)) == Descent::Leaf(
            leaf_id,
        ),
        was.store().contains_key(leaf_id),
        pb == was.store()[leaf_id],
        leaf_ok(pb) ==> leaf_ok(nb),
        link(nb) == link(pb),
        entries(nb) == upsert(entries(pb), key, value),
        now.wf(),
        now.faithful(disk),
        now.meta == was.meta,
        now.base == was.base,
        now.pages(disk) == was.pages(disk).insert(leaf_id, nb),
    ensures
        sound(now, disk),
        held(now, disk) == held(was, disk).insert(key, value),
{
    let t = was.pages(disk);
    let u = now.pages(disk);
    let root = was.meta.root;
    let h = was.meta.height as nat;
    let a = was.meta.num_pages as int;
    let d = (h - 1) as nat;
    let s = top(root, h);
    let z = walk(t, s, key, d);
    was.lemma_store(disk);
    lemma_leaf_spot(was, disk, key, leaf_id);
    lemma_leaf_one(t, z, key, Some(value), nb, a);
    lemma_climb_one(t, u, s, key, Some(value), a, a, d);
    lemma_root_one(t, u, root, h, key, Some(value), a, a);
}

/// Between `was` and `now` the value went under `key`, and the place `depth` levels down
/// towards `key` was parted at `sep`, with page `right` as its right part.
#[verifier::opaque]
pub open spec fn parted(
    was: FilePager,
    now: FilePager,
    disk: Disk,
    key: Seq<u8>,
    value: Seq<u8>,
    path: Seq<u32>,
    depth: nat,
    sep: Seq<u8>,
    right: u32,
) -> bool {
    let t = was.pages(disk);
    let s = top(was.meta.root, was.meta.height as nat);
    &&& now.faithful(disk)
    &&& now.whole(disk)
    &&& two(
        t,
        now.pages(disk),
        walk(t, s, key, depth),
        key,
        Some(value),
        was.meta.num_pages as int,
        now.meta.num_pages as int,
        sep,
        right,
    )
    &&& forall|d: int| 0 <= d < depth ==> #[trigger] path[d] == stop(t, s.id, key, d as nat)
}

pub proof fn lemma_stop_same(p: Pages, t: Pages, s: Spot, k: Seq<u8>, path: Seq<u32>, d: nat)
    requires
        part_of(p, t),
        trail(p, s.id, s.height, k, path),
        d < path.len(),
    ensures
        path[d as int] == stop(t, s.id, k, d),
    decreases d,
{
    assert(path[d as int] == stop(p, s.id, k, d));
    if d > 0 {
        lemma_stop_same(p, t, s, k, path, (d - 1) as nat);
        assert(path[d - 1] == stop(p, s.id, k, (d - 1) as nat));
        assert(p.contains_key(path[d - 1]));
    }
}

/// The path found among the pages at hand is the way down in the tree.
pub proof fn lemma_stops(p: Pages, t: Pages, s: Spot, k: Seq<u8>, path: Seq<u32>)
    requires
        part_of(p, t),
        trail(p, s.id, s.height, k, path),
    ensures
        forall|d: int| 0 <= d < path.len() ==> #[trigger] path[d] == stop(t, s.id, k, d as nat),
{
    assert forall|d: int| 0 <= d < path.len() implies #[trigger] path[d] == stop(
        t,
        s.id,
        k,
        d as nat,
    ) by {
        lemma_stop_same(p, t, s, k, path, d as nat);
    }
}

/// A leaf that was split parts the leaf's place.
pub proof fn lemma_leaf_parted(
    was: FilePager,
    now: FilePager,
    disk: Disk,
    key: Seq<u8>,
    value: Seq<u8>,
    path: Seq<u32>,
    leaf: u32,
    lb: Seq<u8>,
    rb: Seq<u8>,
    m: int,
)
    requires
        sound(was, disk),
        was.meta.height >= 1,
        was.meta.num_pages < u32::MAX,
        descend(was.store(), was.meta.root, was.meta.height as nat, Some(key)) == Descent::Leaf(leaf),
        was.store().contains_key(leaf),
        trail(was.store(), was.meta.root, was.meta.height as nat, key, path),
        now.faithful(disk),
        now.meta.num_pages == was.meta.num_pages + 1,
        now.pages(disk) == was.pages(disk).insert(leaf, lb).insert(was.meta.num_pages, rb),
        leaf_ok(lb),
        leaf_ok(rb),
        entry_fits(key, value),
        ({
            let b = was.store()[leaf];
            let all = upsert(entries(b), key, value);
            &&& 0 < m < all.len()
            &&& entries(lb) == all.take(m)
            &&& link(lb) == was.meta.num_pages
            &&& entries(rb) == all.skip(m)
            &&& link(rb) == link(b)
        }),
    ensures
        parted(
            was,
            now,
            disk,
            key,
            value,
            path,
            path.len(),
            upsert(entries(was.store()[leaf]), key, value)[m].0,
            was.meta.num_pages,
        ),
{
    reveal(parted);
    let t = was.pages(disk);
    was.lemma_store(disk);
    lemma_leaf_spot(was, disk, key, leaf);
    let h = was.meta.height as nat;
    let s = top(was.meta.root, h);
    let z = walk(t, s, key, (h - 1) as nat);
    lemma_leaf_two(t, z, key, value, lb, rb, m, was.meta.num_pages);
    lemma_stops(was.store(), t, s, key, path);
}

/// A climb in a well-formed tree comes to no page twice.
pub proof fn lemma_parted_plain(
    was: FilePager,
    now: FilePager,
    disk: Disk,
    key: Seq<u8>,
    value: Seq<u8>,
    path: Seq<u32>,
    sep: Seq<u8>,
    right: u32,
)
    requires
        sound(was, disk),
        path.len() + 1 == was.meta.height,
        was.meta.num_pages <= now.meta.num_pages,
        parted(was, now, disk, key, value, path, path.len(), sep, right),
    ensures
        plain_path(now, path),
{
    reveal(parted);
    let t = was.pages(disk);
    let s = top(was.meta.root, was.meta.height as nat);
    law_empty_key_first(key);
    assert forall|i: int| 0 <= i < path.len() implies (#[trigger] path[i]) < now.meta.num_pages
        && path[i] == walk(t, s, key, i as nat).id by {
        lemma_walk(t, s, key, i as nat);
        let w = walk(t, s, key, i as nat);
        assert(owns(t, w.id, (s.height - i) as nat, w.id));
        assert(owns(t, s.id, s.height, w.id));
    }
    assert forall|i: int, j: int| 0 <= i < path.len() && 0 <= j < path.len() && i != j implies path[i]
        != path[j] by {
        if i < j {
            lemma_walk_apart(t, s, key, i as nat, j as nat);
        } else {
            lemma_walk_apart(t, s, key, j as nat, i as nat);
        }
    }
}

/// A climb that started in `was` has come up to `depth`.
pub open spec fn climbing(was: FilePager, now: FilePager, path: Seq<u32>, depth: nat) -> bool {
    &&& now.wf()
    &&& 0 < depth <= path.len()
    &&& path.len() + 1 == was.meta.height
    &&& was.meta.num_pages <= now.meta.num_pages
    &&& now.meta.height == was.meta.height
    &&& now.meta.root == was.meta.root
    &&& now.meta.base_offset == was.meta.base_offset
    &&& now.base == was.base
}

/// The parent of a place that was parted is as it was.
#[verifier::spinoff_prover]
#[verifier::rlimit(60)]
pub proof fn lemma_parent(
    was: FilePager,
    now: FilePager,
    disk: Disk,
    key: Seq<u8>,
    value: Seq<u8>,
    path: Seq<u32>,
    depth: nat,
    sep: Seq<u8>,
    right: u32,
)
    requires
        sound(was, disk),
        now.wf(),
        0 < depth < was.meta.height,
        was.meta.num_pages <= now.meta.num_pages,
        parted(was, now, disk, key, value, path, depth, sep, right),
    ensures
        ({
            let t = was.pages(disk);
            let s = top(was.meta.root, was.meta.height as nat);
            let d = (depth - 1) as nat;
            let z = walk(t, s, key, d);
            &&& z.id == path[d as int]
            &&& z.id < was.meta.num_pages
            &&& step_parted(
                t,
                now.pages(disk),
                z,
                key,
                Some(value),
                was.meta.num_pages as int,
                now.meta.num_pages as int,
                sep,
                right,
            )
            &&& t[z.id] == now.pages(disk)[z.id]
            &&& internal_ok(t[z.id])
            &&& !has_key(entries(t[z.id]), sep)
            &&& subtree(t, s)
            &&& within(key, s)
            &&& part_of(now.store(), now.pages(disk))
            &&& forall|x: u32| #[trigger] owns(t, s.id, s.height, x) ==> x < was.meta.num_pages
        }),
{
    reveal(parted);
    let t = was.pages(disk);
    let u = now.pages(disk);
    let s = top(was.meta.root, was.meta.height as nat);
    let d = (depth - 1) as nat;
    let a = was.meta.num_pages as int;
    let b = now.meta.num_pages as int;
    law_empty_key_first(key);
    lemma_walk(t, s, key, d);
    let z = walk(t, s, key, d);
    assert forall|x: u32| #[trigger] owns(t, z.id, z.height, x) implies x < a by {
        assert(owns(t, z.id, (s.height - d) as nat, x));
        assert(owns(t, s.id, s.height, x));
    }
    assert(walk(t, s, key, depth) == crate::tree::step(t, z, key));
    lemma_step_parted(t, u, z, key, Some(value), a, b, sep, right);
    now.lemma_store(disk);
}

/// A parent that took the separator ends the climb.
pub proof fn lemma_took(
    was: FilePager,
    now: FilePager,
    q: FilePager,
    disk: Disk,
    key: Seq<u8>,
    value: Seq<u8>,
    path: Seq<u32>,
    depth: nat,
    sep: Seq<u8>,
    right: u32,
    nb: Seq<u8>,
)
    requires
        climbing(was, now, path, depth),
        sound(was, disk),
        parted(was, now, disk, key, value, path, depth, sep, right),
        now.store().contains_key(path[depth - 1]),
        node_took(now, q, path[depth - 1], sep, right, nb),
    ensures
        sound(q, disk),
        held(q, disk) == held(was, disk).insert(key, value),
{
    reveal(page_written);
    reveal(parted);
    reveal(node_took);
    let root = was.meta.root;
    let h = was.meta.height as nat;
    let a = was.meta.num_pages as int;
    let b = now.meta.num_pages as int;
    let s = top(root, h);
    let d = (depth - 1) as nat;
    let x = path[depth - 1];
    lemma_parent(was, now, disk, key, value, path, depth, sep, right);
    let t = was.pages(disk);
    let u = now.pages(disk);
    let z = walk(t, s, key, d);
    let w = q.pages(disk);
    assert(w == u.insert(x, nb));
    assert(now.store()[x] == t[x]);
    lemma_up_fit(t, u, z, key, Some(value), a, b, sep, right, nb);
    lemma_climb_one(t, w, s, key, Some(value), a, b, d);
    lemma_root_one(t, w, root, h, key, Some(value), a, b);
    assert(q.whole(disk)) by {
        assert forall|id: u32| 1 <= id < q.meta.num_pages implies #[trigger] q.pages(
            disk,
        ).contains_key(id) by {
            assert(u.contains_key(id));
        }
    }
}

/// A parent that was split hands the climb on to the page above it.
pub proof fn lemma_split(
    was: FilePager,
    now: FilePager,
    q: FilePager,
    disk: Disk,
    key: Seq<u8>,
    value: Seq<u8>,
    path: Seq<u32>,
    depth: nat,
    sep: Seq<u8>,
    right: u32,
    up: Seq<u8>,
    lb: Seq<u8>,
    rb: Seq<u8>,
)
    requires
        climbing(was, now, path, depth),
        now.meta.num_pages < u32::MAX,
        sound(was, disk),
        parted(was, now, disk, key, value, path, depth, sep, right),
        now.store().contains_key(path[depth - 1]),
        node_split(now, q, path[depth - 1], sep, right, up, lb, rb),
    ensures
        parted(was, q, disk, key, value, path, (depth - 1) as nat, up, now.meta.num_pages),
{
    reveal(parted);
    reveal(node_split);
    let a = was.meta.num_pages as int;
    let s = top(was.meta.root, was.meta.height as nat);
    let d = (depth - 1) as nat;
    let x = path[depth - 1];
    lemma_parent(was, now, disk, key, value, path, depth, sep, right);
    let t = was.pages(disk);
    let u = now.pages(disk);
    let z = walk(t, s, key, d);
    assert(now.store()[x] == t[x]);
    let all = with_child(now.store()[x], sep, right);
    assert(q.pages(disk) == u.insert(x, lb).insert(now.meta.num_pages, rb));
    lemma_up_split(
        t,
        u,
        z,
        key,
        Some(value),
        a,
        sep,
        right,
        lb,
        rb,
        middle(all),
        now.meta.num_pages,
    );
    assert(q.whole(disk)) by {
        assert forall|id: u32| 1 <= id < q.meta.num_pages implies #[trigger] q.pages(
            disk,
        ).contains_key(id) by {
            assert(id < now.meta.num_pages ==> u.contains_key(id));
        }
    }
}

/// A new root ends a climb past the old one.
pub proof fn lemma_new_root(
    was: FilePager,
    now: FilePager,
    q: FilePager,
    disk: Disk,
    key: Seq<u8>,
    value: Seq<u8>,
    path: Seq<u32>,
    sep: Seq<u8>,
    right: u32,
    nb: Seq<u8>,
)
    requires
        sound(was, disk),
        was.meta.height >= 1,
        was.meta.height < u32::MAX,
        was.meta.num_pages <= now.meta.num_pages < u32::MAX,
        now.meta.root == was.meta.root,
        now.meta.height == was.meta.height,
        now.meta.base_offset == was.meta.base_offset,
        now.base == was.base,
        parted(was, now, disk, key, value, path, 0, sep, right),
        q.wf(),
        now.faithful(disk) ==> q.faithful(disk),
        q.base == now.base,
        q.meta == (Meta {
            root: now.meta.num_pages,
            num_pages: (now.meta.num_pages + 1) as u32,
            height: (now.meta.height + 1) as u32,
            ..now.meta
        }),
        q.pages(disk) == now.pages(disk).insert(now.meta.num_pages, nb),
        internal_ok(nb),
        link(nb) == was.meta.root,
        entries(nb) == seq![(sep, u32_bytes(right))],
    ensures
        sound(q, disk),
        held(q, disk) == held(was, disk).insert(key, value),
{
    reveal(parted);
    let t = was.pages(disk);
    let u = now.pages(disk);
    let root = was.meta.root;
    let h = was.meta.height as nat;
    let s = top(root, h);
    let p = now.meta.num_pages;
    assert(walk(t, s, key, 0) == s);
    lemma_root_two(
        t,
        u,
        root,
        h,
        key,
        Some(value),
        was.meta.num_pages as int,
        sep,
        right,
        nb,
        p,
    );
    assert(q.whole(disk)) by {
        assert forall|id: u32| 1 <= id < q.meta.num_pages implies #[trigger] q.pages(
            disk,
        ).contains_key(id) by {
            assert(id < p ==> u.contains_key(id));
        }
    }
}

} // verus!
