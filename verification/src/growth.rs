//! How a tree grows when an entry goes in: which pages are split, and what that does to the
//! number of pages, the root and the height.

use vstd::prelude::*;

use crate::byte::{u32_at, u32_bytes};
use crate::climb::lemma_stops;
use crate::db::sound;
use crate::error::Fault;
use crate::files::Disk;
use crate::internal::{
    internal_ok, internal_split_point, lemma_middle, lemma_separator_len, middle, MAX_SEPARATOR,
};
use crate::key::law_empty_key_first;
use crate::layout::{entries, has_key, link, live, upsert};
use crate::leaf::{leaf_middle, leaf_split_point, lemma_leaf_middle, splittable, takes};
use crate::meta::Meta;
use crate::page::put_fits;
use crate::pager::FilePager;
use crate::tree::{owns, subtree, top, walk, within};
use crate::tree_climb::{lemma_walk, lemma_walk_apart, with_child};
use crate::tree_read::{descend, stop, trail, Descent};

verus! {

/// There are page ids left for all pages that any insertion can take: a new leaf, a page for
/// each one on the way, and a root.
pub open spec fn room(p: FilePager) -> bool {
    p.meta.num_pages + p.meta.height + 1 <= u32::MAX
}

/// How many of the first `depth` pages on `path` are split, from the last one up, when `sep`
/// and the child `right` go into the last one and `next` is the next page id: each page that
/// has no room hands its middle separator and its new right page to the page above it.
pub open spec fn splits(
    p: FilePager,
    path: Seq<u32>,
    depth: nat,
    sep: Seq<u8>,
    right: u32,
    next: int,
) -> nat
    decreases depth,
{
    if depth == 0 {
        0
    } else {
        let id = path[depth - 1];
        let b = p.store()[id];
        if put_fits(b, p.percent_at(id) as int, sep, u32_bytes(right)) {
            0
        } else {
            let all = with_child(b, sep, right);
            1 + splits(
                p,
                path,
                (depth - 1) as nat,
                all[middle(all)].0,
                next as u32,
                next + 1,
            )
        }
    }
}

/// What stops the climb that `splits` counts, if anything does: a page on the way that is not
/// an internal page, or one that has the separator already.
pub open spec fn stuck(
    p: FilePager,
    path: Seq<u32>,
    depth: nat,
    sep: Seq<u8>,
    right: u32,
    next: int,
) -> Option<Fault>
    decreases depth,
{
    if depth == 0 {
        None
    } else {
        let id = path[depth - 1];
        let b = p.store()[id];
        if !internal_ok(b) {
            Some(Fault::BadInternalPage)
        } else if has_key(entries(b), sep) {
            Some(Fault::DuplicateSeparator)
        } else if put_fits(b, p.percent_at(id) as int, sep, u32_bytes(right)) {
            None
        } else {
            let all = with_child(b, sep, right);
            stuck(p, path, (depth - 1) as nat, all[middle(all)].0, next as u32, next + 1)
        }
    }
}

/// No page comes twice on the path, and none is new.
pub open spec fn plain_path(p: FilePager, path: Seq<u32>) -> bool {
    path.no_duplicates() && forall|i: int|
        0 <= i < path.len() ==> (#[trigger] path[i]) < p.meta.num_pages
}

/// How the tree grew when `k` pages on a path of `len` were split: by one page each, and by a
/// root above the old one where all of them were.
pub open spec fn grown(was: Meta, now: FilePager, k: nat, len: nat) -> bool {
    if k == len {
        &&& now.meta.num_pages == was.num_pages + k + 1
        &&& now.meta.height == was.height + 1
        &&& now.meta.root == was.num_pages + k
        &&& now.store().contains_key(now.meta.root)
        &&& link(now.store()[now.meta.root]) == was.root
        &&& entries(now.store()[now.meta.root]).len() == 1
    } else {
        &&& now.meta.num_pages == was.num_pages + k
        &&& now.meta.height == was.height
        &&& now.meta.root == was.root
    }
}

/// How the tree grew when `sep` and the child `right` went up along `path`: where the last page
/// had room nothing but that page changed; in general as many pages were split as had no room.
pub open spec fn grown_along(
    was: FilePager,
    now: FilePager,
    path: Seq<u32>,
    sep: Seq<u8>,
    right: u32,
) -> bool {
    let k = splits(was, path, path.len(), sep, right, was.meta.num_pages as int);
    &&& exists|j: nat| j <= path.len() && #[trigger] grown(was.meta, now, j, path.len())
    &&& plain_path(was, path) ==> k <= path.len() && grown(was.meta, now, k, path.len())
    &&& path.len() > 0 && put_fits(
        was.store()[path.last()],
        was.percent_at(path.last()) as int,
        sep,
        u32_bytes(right),
    ) ==> now.meta == was.meta
}

/// The pages that were in memory still are, and so are the new ones.
pub open spec fn at_hand(was: FilePager, now: FilePager) -> bool {
    forall|x: u32|
        was.store().contains_key(x) || was.meta.num_pages <= x < now.meta.num_pages
            ==> #[trigger] now.store().contains_key(x)
}

/// The leaf that is responsible for the key can take the entry without a split.
pub open spec fn leaf_takes(p: FilePager, key: Seq<u8>, value: Seq<u8>) -> bool {
    match descend(p.store(), p.meta.root, p.meta.height as nat, Some(key)) {
        Descent::Leaf(l) => takes(p.store()[l], p.percent_at(l) as int, key, value),
        _ => false,
    }
}

/// The entry takes a new page: for the first leaf of an empty tree, or for half of a leaf that is
/// at hand, has no room and can be split.
pub open spec fn grows(p: FilePager, key: Seq<u8>, value: Seq<u8>) -> bool {
    p.meta.height == 0 || match descend(
        p.store(),
        p.meta.root,
        p.meta.height as nat,
        Some(key),
    ) {
        Descent::Leaf(l) => p.store().contains_key(l) && splittable(p.store()[l]) && !takes(
            p.store()[l],
            p.percent_at(l) as int,
            key,
            value,
        ),
        _ => false,
    }
}

/// The pages on the way down to the leaf that is responsible for the key, without the leaf.
pub open spec fn way(p: FilePager, key: Seq<u8>) -> Seq<u32> {
    Seq::new(
        (p.meta.height - 1) as nat,
        |d: int| stop(p.store(), p.meta.root, key, d as nat),
    )
}

/// The leaf that is responsible for the key.
pub open spec fn way_end(p: FilePager, key: Seq<u8>) -> u32 {
    stop(p.store(), p.meta.root, key, (p.meta.height - 1) as nat)
}

/// How many pages above the leaf are split when the leaf is split for the entry.
pub open spec fn way_splits(p: FilePager, key: Seq<u8>, value: Seq<u8>) -> nat {
    let all = upsert(live(p.store()[way_end(p, key)]), key, value);
    let n = p.meta.num_pages;
    splits(p, way(p, key), way(p, key).len(), all[leaf_middle(all)].0, n, n + 1)
}

/// What stops the insertion of an entry whose leaf is at hand, if anything does: a leaf that
/// cannot be read, one without room whose entries the tree does not accept or do not fit in a
/// page, or a climb that is stuck.
pub open spec fn obstacle(p: FilePager, key: Seq<u8>, value: Seq<u8>) -> Option<Fault> {
    let b = p.store()[way_end(p, key)];
    let all = upsert(live(b), key, value);
    let n = p.meta.num_pages;
    if p.meta.height == 0 {
        None
    } else if leaf_takes(p, key, value) {
        None
    } else if !splittable(b) {
        Some(Fault::BadLeafPage)
    } else {
        stuck(p, way(p, key), way(p, key).len(), all[leaf_middle(all)].0, n, n + 1)
    }
}

/// What becomes of the entry can be told from the pages at hand: it does not come to a climb, or
/// the climb comes to no page twice.
pub open spec fn foreseen(p: FilePager, key: Seq<u8>, value: Seq<u8>) -> bool {
    ||| p.meta.height == 0
    ||| leaf_takes(p, key, value)
    ||| !splittable(p.store()[way_end(p, key)])
    ||| plain_path(p, way(p, key).push(way_end(p, key)))
}

/// How the tree grew when the entry went in: an empty tree gets a root, a leaf with room
/// changes nothing, and a leaf without room gets a right neighbour, as does each page that has
/// no room for the separator from below.
pub open spec fn widened(was: FilePager, now: FilePager, key: Seq<u8>, value: Seq<u8>) -> bool {
    let n = was.meta.num_pages;
    if was.meta.height == 0 {
        now.meta == (Meta { root: n, num_pages: (n + 1) as u32, height: 1, ..was.meta })
    } else if leaf_takes(was, key, value) {
        now.meta == was.meta
    } else {
        let after_leaf = Meta { num_pages: (n + 1) as u32, ..was.meta };
        let len = (was.meta.height - 1) as nat;
        &&& exists|k: nat| k <= len && #[trigger] grown(after_leaf, now, k, len)
        &&& plain_path(was, way(was, key).push(way_end(was, key))) ==> grown(
            after_leaf,
            now,
            way_splits(was, key, value),
            len,
        )
    }
}

/// `q` is `p` with page `x` written as `nb`.
#[verifier::opaque]
pub open spec fn page_written(p: FilePager, q: FilePager, x: u32, nb: Seq<u8>, percent: u8) -> bool {
    &&& q.wf()
    &&& q.level == p.level
    &&& q.base == p.base
    &&& q.store() == p.store().insert(x, nb)
    &&& forall|y: u32| #[trigger]
        q.percent_at(y) == if y == x {
            percent
        } else {
            p.percent_at(y)
        }
    &&& forall|disk: Disk| #[trigger] q.pages(disk) == p.pages(disk).insert(x, nb)
    &&& forall|disk: Disk| #[trigger] p.faithful(disk) ==> q.faithful(disk)
}

/// `q` is `p` after page `x` took the separator `sep` and the child `right`.
#[verifier::opaque]
pub open spec fn node_took(
    p: FilePager,
    q: FilePager,
    x: u32,
    sep: Seq<u8>,
    right: u32,
    nb: Seq<u8>,
) -> bool {
    &&& page_written(p, q, x, nb, p.percent_at(x))
    &&& q.meta == p.meta
    &&& internal_ok(nb)
    &&& link(nb) == link(p.store()[x])
    &&& entries(nb) == with_child(p.store()[x], sep, right)
}

/// `q` is `p` after page `x`, which had no room for the separator `sep` and the child `right`,
/// was split: its middle separator `up` moves up, and what is behind it is in a new page.
#[verifier::opaque]
pub open spec fn node_split(
    p: FilePager,
    q: FilePager,
    x: u32,
    sep: Seq<u8>,
    right: u32,
    up: Seq<u8>,
    lb: Seq<u8>,
    rb: Seq<u8>,
) -> bool {
    let all = with_child(p.store()[x], sep, right);
    let m = middle(all);
    &&& q.wf()
    &&& q.level == p.level
    &&& q.base == p.base
    &&& q.meta == (Meta { num_pages: (p.meta.num_pages + 1) as u32, ..p.meta })
    &&& q.store() == p.store().insert(x, lb).insert(p.meta.num_pages, rb)
    &&& forall|y: u32|
        y != x && y != p.meta.num_pages ==> #[trigger] q.percent_at(y) == p.percent_at(y)
    &&& forall|disk: Disk| #[trigger]
        q.pages(disk) == p.pages(disk).insert(x, lb).insert(p.meta.num_pages, rb)
    &&& forall|disk: Disk| #[trigger] p.faithful(disk) ==> q.faithful(disk)
    &&& internal_ok(lb)
    &&& internal_ok(rb)
    &&& 0 <= m < all.len()
    &&& link(lb) == link(p.store()[x])
    &&& entries(lb) == all.take(m)
    &&& link(rb) == u32_at(all[m].1, 0)
    &&& entries(rb) == all.skip(m + 1)
    &&& up == all[m].0
    &&& up.len() <= MAX_SEPARATOR
}

/// `q` is `p` after page `x` was split, whatever the bytes of its two halves.
pub open spec fn some_split(
    p: FilePager,
    q: FilePager,
    x: u32,
    sep: Seq<u8>,
    right: u32,
    up: Seq<u8>,
) -> bool {
    exists|lb: Seq<u8>, rb: Seq<u8>| #[trigger] node_split(p, q, x, sep, right, up, lb, rb)
}

/// The entry that moves up is the middle one, and its separator is no longer than a key.
pub proof fn lemma_moves_up(b: Seq<u8>, sep: Seq<u8>, right: u32, m: int)
    requires
        internal_ok(b),
        sep.len() <= MAX_SEPARATOR,
        internal_split_point(with_child(b, sep, right), m),
    ensures
        m == middle(with_child(b, sep, right)),
        with_child(b, sep, right)[m].0.len() <= MAX_SEPARATOR,
{
    let all = with_child(b, sep, right);
    lemma_separator_len(b, sep, u32_bytes(right), m);
    lemma_middle(all, m);
}

/// Two written pages make a split page.
pub proof fn lemma_node_split(
    p: FilePager,
    p1: FilePager,
    p2: FilePager,
    q: FilePager,
    x: u32,
    sep: Seq<u8>,
    right: u32,
    up: Seq<u8>,
    lb: Seq<u8>,
    rb: Seq<u8>,
    m: int,
)
    requires
        p1.level == p.level,
        p1.base == p.base,
        p1.meta == (Meta { num_pages: (p.meta.num_pages + 1) as u32, ..p.meta }),
        p1.store() == p.store(),
        forall|y: u32| #[trigger] p1.percent_at(y) == p.percent_at(y),
        forall|disk: Disk| #[trigger] p1.pages(disk) == p.pages(disk),
        forall|disk: Disk| #[trigger] p.faithful(disk) ==> p1.faithful(disk),
        page_written(p1, p2, x, lb, 75),
        p2.meta == p1.meta,
        page_written(p2, q, p.meta.num_pages, rb, 75),
        q.meta == p2.meta,
        m == middle(with_child(p.store()[x], sep, right)),
        0 <= m < with_child(p.store()[x], sep, right).len(),
        internal_ok(lb),
        internal_ok(rb),
        link(lb) == link(p.store()[x]),
        entries(lb) == with_child(p.store()[x], sep, right).take(m),
        link(rb) == u32_at(with_child(p.store()[x], sep, right)[m].1, 0),
        entries(rb) == with_child(p.store()[x], sep, right).skip(m + 1),
        up == with_child(p.store()[x], sep, right)[m].0,
        up.len() <= MAX_SEPARATOR,
    ensures
        node_split(p, q, x, sep, right, up, lb, rb),
{
    reveal(page_written);
    reveal(node_split);
    assert forall|y: u32| y != x && y != p.meta.num_pages implies #[trigger] q.percent_at(y)
        == p.percent_at(y) by {
        assert(p2.percent_at(y) == p1.percent_at(y));
    }
    assert forall|disk: Disk| #[trigger] p.faithful(disk) implies q.faithful(disk) by {
        assert(p1.faithful(disk));
        assert(p2.faithful(disk));
    }
    assert forall|disk: Disk| #[trigger] q.pages(disk) == p.pages(disk).insert(x, lb).insert(
        p.meta.num_pages,
        rb,
    ) by {
        assert(p2.pages(disk) == p1.pages(disk).insert(x, lb));
    }
}

/// Pages that are the same are split the same, and stop a climb the same.
pub proof fn lemma_splits_same(
    p: FilePager,
    q: FilePager,
    path: Seq<u32>,
    depth: nat,
    sep: Seq<u8>,
    right: u32,
    next: int,
)
    requires
        depth <= path.len(),
        forall|i: int|
            0 <= i < depth ==> p.store()[#[trigger] path[i]] == q.store()[path[i]]
                && p.percent_at(path[i]) == q.percent_at(path[i]),
    ensures
        splits(p, path, depth, sep, right, next) == splits(q, path, depth, sep, right, next),
        stuck(p, path, depth, sep, right, next) == stuck(q, path, depth, sep, right, next),
    decreases depth,
{
    if depth > 0 {
        let id = path[depth - 1];
        let b = p.store()[id];
        if !put_fits(b, p.percent_at(id) as int, sep, u32_bytes(right)) {
            let all = with_child(b, sep, right);
            lemma_splits_same(
                p,
                q,
                path,
                (depth - 1) as nat,
                all[middle(all)].0,
                next as u32,
                next + 1,
            );
        }
    }
}

/// A plain way down is plain without its leaf, and stays so when pages are added.
pub proof fn lemma_plain_prefix(p: FilePager, q: FilePager, key: Seq<u8>, path: Seq<u32>)
    requires
        plain_path(p, way(p, key).push(way_end(p, key))),
        p.meta.height >= 1,
        trail(p.store(), p.meta.root, p.meta.height as nat, key, path),
        p.meta.num_pages <= q.meta.num_pages,
    ensures
        plain_path(q, path),
{
    let full = way(p, key).push(way_end(p, key));
    assert(way(p, key) =~= path);
    assert forall|i: int| 0 <= i < path.len() implies (#[trigger] path[i]) < q.meta.num_pages by {
        assert(full[i] == path[i]);
    }
    assert forall|i: int, j: int| 0 <= i < path.len() && 0 <= j < path.len() && i != j implies path[i]
        != path[j] by {
        assert(full[i] != full[j]);
    }
}

/// A split leaf and a climb from it make the tree grow.
pub proof fn lemma_widened(
    was: FilePager,
    start: FilePager,
    now: FilePager,
    path: Seq<u32>,
    leaf: u32,
    key: Seq<u8>,
    value: Seq<u8>,
    m: int,
)
    requires
        was.meta.height >= 1,
        !leaf_takes(was, key, value),
        trail(was.store(), was.meta.root, was.meta.height as nat, key, path),
        leaf == way_end(was, key),
        start.meta == (Meta { num_pages: (was.meta.num_pages + 1) as u32, ..was.meta }),
        was.meta.num_pages < u32::MAX,
        forall|x: u32|
            x != leaf && x != was.meta.num_pages ==> #[trigger] start.store()[x] == was.store()[x]
                && start.percent_at(x) == was.percent_at(x),
        leaf_split_point(upsert(live(was.store()[leaf]), key, value), m),
        grown_along(
            start,
            now,
            path,
            upsert(live(was.store()[leaf]), key, value)[m].0,
            was.meta.num_pages,
        ),
    ensures
        widened(was, now, key, value),
{
    let n = was.meta.num_pages;
    let all = upsert(live(was.store()[leaf]), key, value);
    lemma_leaf_middle(all, m);
    assert(way(was, key) =~= path);
    let full = path.push(leaf);
    if plain_path(was, full) {
        lemma_plain_prefix(was, start, key, path);
        assert forall|i: int| 0 <= i < path.len() implies start.store()[#[trigger] path[i]]
            == was.store()[path[i]] && start.percent_at(path[i]) == was.percent_at(path[i]) by {
            let x = path[i];
            assert(full[i] == x && full[path.len() as int] == leaf);
            assert(x != leaf && x < was.meta.num_pages);
            assert(start.store()[x] == was.store()[x]);
        }
        lemma_splits_same(was, start, path, path.len(), all[m].0, n, n + 1);
    }
}

/// Whether a climb from a split leaf is stuck can be told from the pages before the split.
pub proof fn lemma_obstacle(
    was: FilePager,
    start: FilePager,
    path: Seq<u32>,
    leaf: u32,
    key: Seq<u8>,
    value: Seq<u8>,
    m: int,
)
    requires
        was.meta.height >= 1,
        !leaf_takes(was, key, value),
        trail(was.store(), was.meta.root, was.meta.height as nat, key, path),
        leaf == way_end(was, key),
        splittable(was.store()[leaf]),
        was.meta.num_pages <= start.meta.num_pages,
        forall|x: u32|
            x != leaf && x != was.meta.num_pages ==> #[trigger] start.store()[x] == was.store()[x]
                && start.percent_at(x) == was.percent_at(x),
        leaf_split_point(upsert(live(was.store()[leaf]), key, value), m),
    ensures
        plain_path(was, way(was, key).push(way_end(was, key))) ==> plain_path(start, path)
            && obstacle(was, key, value) == stuck(
            start,
            path,
            path.len(),
            upsert(live(was.store()[leaf]), key, value)[m].0,
            was.meta.num_pages,
            was.meta.num_pages + 1,
        ),
{
    let n = was.meta.num_pages;
    let all = upsert(live(was.store()[leaf]), key, value);
    lemma_leaf_middle(all, m);
    assert(way(was, key) =~= path);
    let full = path.push(leaf);
    if plain_path(was, full) {
        lemma_plain_prefix(was, start, key, path);
        assert forall|i: int| 0 <= i < path.len() implies was.store()[#[trigger] path[i]]
            == start.store()[path[i]] && was.percent_at(path[i]) == start.percent_at(path[i]) by {
            let x = path[i];
            assert(full[i] == x && full[path.len() as int] == leaf);
            assert(x != leaf && x < n);
            assert(start.store()[x] == was.store()[x]);
        }
        lemma_splits_same(was, start, path, path.len(), all[m].0, n, n + 1);
    }
}

/// Page `i` on the way down in a well-formed tree.
pub proof fn lemma_way_at(p: FilePager, disk: Disk, key: Seq<u8>, path: Seq<u32>, i: nat)
    requires
        sound(p, disk),
        i < p.meta.height,
        trail(p.store(), p.meta.root, p.meta.height as nat, key, path),
    ensures
        ({
            let t = p.pages(disk);
            let s = top(p.meta.root, p.meta.height as nat);
            &&& subtree(t, s)
            &&& within(key, s)
            &&& stop(p.store(), p.meta.root, key, i) == walk(t, s, key, i).id
            &&& walk(t, s, key, i).id < p.meta.num_pages
        }),
{
    let t = p.pages(disk);
    let s = top(p.meta.root, p.meta.height as nat);
    p.lemma_store(disk);
    law_empty_key_first(key);
    lemma_stops(p.store(), t, s, key, path);
    lemma_walk(t, s, key, i);
    let w = walk(t, s, key, i);
    assert(owns(t, w.id, (s.height - i) as nat, w.id));
    assert(owns(t, s.id, s.height, w.id));
    if i > 0 {
        let d = (i - 1) as nat;
        let x = path[d as int];
        assert(x == stop(p.store(), s.id, key, d) && x == stop(t, s.id, key, d));
        assert(p.store().contains_key(x));
        assert(p.store()[x] == t[x]);
        assert(stop(p.store(), s.id, key, i) == stop(t, s.id, key, i));
    }
}

/// The way down in a well-formed tree comes to no page twice.
pub proof fn lemma_way_plain(p: FilePager, disk: Disk, key: Seq<u8>, path: Seq<u32>)
    requires
        sound(p, disk),
        p.meta.height >= 1,
        trail(p.store(), p.meta.root, p.meta.height as nat, key, path),
    ensures
        plain_path(p, way(p, key).push(way_end(p, key))),
{
    let full = way(p, key).push(way_end(p, key));
    let t = p.pages(disk);
    let s = top(p.meta.root, p.meta.height as nat);
    assert forall|i: int| 0 <= i < full.len() implies #[trigger] full[i] < p.meta.num_pages by {
        lemma_way_at(p, disk, key, path, i as nat);
    }
    assert forall|i: int, j: int| 0 <= i < full.len() && 0 <= j < full.len() && i != j implies full[i]
        != full[j] by {
        lemma_way_at(p, disk, key, path, i as nat);
        lemma_way_at(p, disk, key, path, j as nat);
        if i < j {
            lemma_walk_apart(t, s, key, i as nat, j as nat);
        } else {
            lemma_walk_apart(t, s, key, j as nat, i as nat);
        }
    }
}

/// A climb along `path` that started in `start` with `sep0` and `right0` has come up to `depth`
/// with `sep` and `right`.
#[verifier::opaque]
pub open spec fn shape(
    start: FilePager,
    now: FilePager,
    path: Seq<u32>,
    depth: nat,
    sep0: Seq<u8>,
    right0: u32,
    sep: Seq<u8>,
    right: u32,
) -> bool {
    let n = start.meta.num_pages as int;
    &&& depth <= path.len()
    &&& now.meta == (Meta { num_pages: (n + path.len() - depth) as u32, ..start.meta })
    &&& n + path.len() < u32::MAX
    &&& at_hand(start, now)
    &&& forall|i: int| 0 <= i < path.len() ==> now.store().contains_key(#[trigger] path[i])
    &&& depth == path.len() ==> now == start && sep == sep0 && right == right0
    &&& depth < path.len() ==> !put_fits(
        start.store()[path.last()],
        start.percent_at(path.last()) as int,
        sep0,
        u32_bytes(right0),
    )
    &&& plain_path(start, path) ==> {
        &&& splits(start, path, path.len(), sep0, right0, n) == (path.len() - depth) + splits(
            start,
            path,
            depth,
            sep,
            right,
            n + path.len() - depth,
        )
        &&& stuck(start, path, path.len(), sep0, right0, n) == stuck(
            start,
            path,
            depth,
            sep,
            right,
            n + path.len() - depth,
        )
        &&& forall|i: int|
            0 <= i < depth ==> now.store()[#[trigger] path[i]] == start.store()[path[i]]
                && now.percent_at(path[i]) == start.percent_at(path[i])
    }
}

/// A climb that starts.
pub proof fn lemma_shape_start(start: FilePager, path: Seq<u32>, sep: Seq<u8>, right: u32)
    requires
        start.meta.num_pages + path.len() < u32::MAX,
        forall|i: int| 0 <= i < path.len() ==> start.store().contains_key(#[trigger] path[i]),
    ensures
        shape(start, start, path, path.len(), sep, right, sep, right),
{
    reveal(shape);
}

/// What a climb says of the pages and of their number.
pub proof fn lemma_shape_facts(
    start: FilePager,
    now: FilePager,
    path: Seq<u32>,
    depth: nat,
    sep0: Seq<u8>,
    right0: u32,
    sep: Seq<u8>,
    right: u32,
)
    requires
        shape(start, now, path, depth, sep0, right0, sep, right),
    ensures
        now.meta.num_pages + depth == start.meta.num_pages + path.len() < u32::MAX,
        now.meta.root == start.meta.root,
        now.meta.height == start.meta.height,
        now.meta.base_offset == start.meta.base_offset,
        now.meta.base_path == start.meta.base_path,
        forall|i: int| 0 <= i < path.len() ==> now.store().contains_key(#[trigger] path[i]),
{
    reveal(shape);
}

/// A split takes the climb one page up.
pub proof fn lemma_shape_split(
    start: FilePager,
    now: FilePager,
    q: FilePager,
    path: Seq<u32>,
    depth: nat,
    sep0: Seq<u8>,
    right0: u32,
    sep: Seq<u8>,
    right: u32,
    up: Seq<u8>,
    lb: Seq<u8>,
    rb: Seq<u8>,
)
    requires
        shape(start, now, path, depth, sep0, right0, sep, right),
        depth > 0,
        node_split(now, q, path[depth - 1], sep, right, up, lb, rb),
        !put_fits(
            now.store()[path[depth - 1]],
            now.percent_at(path[depth - 1]) as int,
            sep,
            u32_bytes(right),
        ),
        internal_ok(now.store()[path[depth - 1]]),
        !has_key(entries(now.store()[path[depth - 1]]), sep),
    ensures
        shape(
            start,
            q,
            path,
            (depth - 1) as nat,
            sep0,
            right0,
            up,
            now.meta.num_pages,
        ),
        q.wf(),
        q.level == now.level,
        q.base == now.base,
        up.len() <= MAX_SEPARATOR,
{
    reveal(shape);
    reveal(node_split);
    let x = path[depth - 1];
    let n = now.meta.num_pages;
    assert forall|i: int| 0 <= i < path.len() implies q.store().contains_key(#[trigger] path[i]) by {
        assert(now.store().contains_key(path[i]));
    }
    if plain_path(start, path) {
        assert forall|i: int| 0 <= i < depth - 1 implies q.store()[#[trigger] path[i]]
            == start.store()[path[i]] && q.percent_at(path[i]) == start.percent_at(path[i]) by {
            assert(path[i] != path[depth - 1]);
            assert(path[i] < start.meta.num_pages);
            assert(now.store()[path[i]] == start.store()[path[i]]);
        }
        assert(now.store()[x] == start.store()[x]);
        assert(x < start.meta.num_pages);
    }
}

/// A page with room ends the climb.
pub proof fn lemma_shape_took(
    start: FilePager,
    now: FilePager,
    q: FilePager,
    path: Seq<u32>,
    depth: nat,
    sep0: Seq<u8>,
    right0: u32,
    sep: Seq<u8>,
    right: u32,
    nb: Seq<u8>,
)
    requires
        shape(start, now, path, depth, sep0, right0, sep, right),
        depth > 0,
        node_took(now, q, path[depth - 1], sep, right, nb),
        put_fits(
            now.store()[path[depth - 1]],
            now.percent_at(path[depth - 1]) as int,
            sep,
            u32_bytes(right),
        ),
        internal_ok(now.store()[path[depth - 1]]),
        !has_key(entries(now.store()[path[depth - 1]]), sep),
    ensures
        plain_path(start, path) ==> stuck(
            start,
            path,
            path.len(),
            sep0,
            right0,
            start.meta.num_pages as int,
        ) is None,
        at_hand(start, q),
        grown_along(start, q, path, sep0, right0),
        q.wf(),
        q.meta == now.meta,
        q.level == now.level,
        q.base == now.base,
{
    reveal(page_written);
    reveal(shape);
    reveal(node_took);
    let k = (path.len() - depth) as nat;
    assert(grown(start.meta, q, k, path.len()));
    if plain_path(start, path) {
        assert(now.store()[path[depth - 1]] == start.store()[path[depth - 1]]);
    }
}

/// A page that is no internal page or has the separator stops the climb.
pub proof fn lemma_shape_stuck(
    start: FilePager,
    now: FilePager,
    path: Seq<u32>,
    depth: nat,
    sep0: Seq<u8>,
    right0: u32,
    sep: Seq<u8>,
    right: u32,
)
    requires
        shape(start, now, path, depth, sep0, right0, sep, right),
        depth > 0,
    ensures
        ({
            let b = now.store()[path[depth - 1]];
            let whole = stuck(
                start,
                path,
                path.len(),
                sep0,
                right0,
                start.meta.num_pages as int,
            );
            plain_path(start, path) ==> {
                &&& !internal_ok(b) ==> whole == Some(Fault::BadInternalPage)
                &&& internal_ok(b) && has_key(entries(b), sep) ==> whole == Some(
                    Fault::DuplicateSeparator,
                )
            }
        }),
{
    reveal(shape);
    if plain_path(start, path) {
        assert(now.store()[path[depth - 1]] == start.store()[path[depth - 1]]);
    }
}

/// A climb past the root ends with a new root.
pub proof fn lemma_shape_root(
    start: FilePager,
    now: FilePager,
    q: FilePager,
    path: Seq<u32>,
    sep0: Seq<u8>,
    right0: u32,
    sep: Seq<u8>,
    right: u32,
    nb: Seq<u8>,
)
    requires
        shape(start, now, path, 0, sep0, right0, sep, right),
        start.meta.height < u32::MAX,
        q.meta == (Meta {
            root: now.meta.num_pages,
            num_pages: (now.meta.num_pages + 1) as u32,
            height: (now.meta.height + 1) as u32,
            ..now.meta
        }),
        q.store() == now.store().insert(now.meta.num_pages, nb),
        link(nb) == now.meta.root,
        entries(nb).len() == 1,
    ensures
        plain_path(start, path) ==> stuck(
            start,
            path,
            path.len(),
            sep0,
            right0,
            start.meta.num_pages as int,
        ) is None,
        at_hand(start, q),
        grown_along(start, q, path, sep0, right0),
{
    reveal(shape);
    assert(grown(start.meta, q, path.len(), path.len()));
}

} // verus!
