//! A B+Tree over the pages of a pager.

use vstd::prelude::*;
use vstd::slice::slice_to_vec;

use crate::byte::u32_bytes;
use crate::climb::{
    climbing, lemma_leaf_parted, lemma_leaf_spot, lemma_new_root, lemma_parent, lemma_parted_plain,
    lemma_put, lemma_split, lemma_took, parted,
};
use crate::error::{refused, Error, Fault, Result};
use crate::files::{all_ids, apply_all, file_page, has_page, ops_view, Disk, FileOp};
use crate::growth::{
    at_hand, foreseen, grown_along, grows, leaf_takes, lemma_moves_up, lemma_node_split,
    lemma_obstacle, lemma_shape_facts, lemma_shape_root, lemma_shape_split, lemma_shape_start,
    lemma_shape_stuck, lemma_shape_took, lemma_way_plain, lemma_widened, node_split, node_took,
    obstacle, page_written, plain_path, room, shape, some_split, stuck, way, way_end, widened,
};
use crate::internal::{internal_ok, Insertion, InternalPage, InternalSplit, MAX_SEPARATOR};
use crate::items::{items_view, Item};
use crate::key::{compare, group_key_order, key_lt, law_empty_key_first, Order};
use crate::laws::{law_flush, law_sync};
use crate::layout::{
    empty_page, entries, entry, has_key, lemma_page_ok, link, live, lookup, page_ok, reading,
    slot_count, sorted, upsert, Entry, PAGE_SIZE,
};
use crate::leaf::{
    entry_fits, leaf_ok, lemma_leaf, removal, LeafPage, LEAF_ENTRY_OVERHEAD, MAX_ENTRY, MAX_KEY,
};
use crate::meta::{path_fits, MetaModel};
use crate::page::{put_fits, Page};
use crate::pager::{base_opened, opened, Fetch, FilePager, PageRequest};
use crate::plan::{after_sync, flush_ops, snapshot_ops, sync_ops};
use crate::tree::{contents, owns, top, tree_ok, walk, Contents, Pages};
use crate::tree_climb::{lemma_climb_one, lemma_leaf_one, lemma_root_leaf, lemma_root_one};
use crate::tree_proof::{lemma_owned_here, lemma_same_tree, same_at};
use crate::tree_read::{
    descend, early, in_range, joined, law_half_open_range, leads, lemma_descend,
    lemma_descend_from, lemma_descend_part, lemma_scanned, lemma_sought, part_of, prepend, run,
    scanned, sought, stop, sweep, trail, value_of, Descent, Run, Sought, Swept,
};

verus! {

/// A B+Tree backed by a single file.
pub struct Db {
    pub pager: FilePager,
    pub frozen: bool,
}

/// When the files are `disk`, the pages of the pager form a tree.
pub open spec fn sound(p: FilePager, disk: Disk) -> bool {
    &&& p.wf()
    &&& p.faithful(disk)
    &&& p.meta.num_pages >= 1
    &&& p.meta.base_offset <= p.meta.num_pages
    &&& p.base is None ==> p.meta.base_offset == 0
    &&& p.whole(disk)
    &&& tree_ok(p.pages(disk), p.meta.root, p.meta.height as nat, p.meta.num_pages as int)
}

/// The page that is asked for is one of the tree's, is not in memory, and the file it is asked
/// from holds it, well formed.
pub open spec fn wanted(p: FilePager, disk: Disk, m: PageRequest) -> bool {
    &&& 1 <= m.id < p.meta.num_pages
    &&& !p.store().contains_key(m.id)
    &&& m.level == p.level_of(m.id)
    &&& m.level < disk.len()
    &&& has_page(disk[m.level as int], m.id)
    &&& page_ok(file_page(disk[m.level as int], m.id))
}

/// What the tree holds when the files are `disk`.
pub open spec fn held(p: FilePager, disk: Disk) -> Contents {
    contents(p.pages(disk), p.meta.root, p.meta.height as nat)
}

/// The key that bounds a scan.
pub open spec fn bound(k: Option<&[u8]>) -> Option<Seq<u8>> {
    match k {
        Some(k) => Some(k@),
        None => None,
    }
}

/// A scan under way: what was found so far, and the leaf that comes next.
#[derive(Debug)]
pub struct Scan {
    pub out: Vec<Item>,
    pub leaf: u32,
    /// How many leaves may still come: no chain of leaves is longer than there are page ids.
    pub left: u64,
    pub done: bool,
}

impl Scan {
    /// What the scan comes to.
    pub open spec fn rest(&self, t: Pages, lo: Option<Seq<u8>>, hi: Option<Seq<u8>>) -> Run {
        if self.done {
            Run::Done(items_view(self.out@))
        } else {
            prepend(items_view(self.out@), run(t, self.leaf, lo, hi, self.left as nat))
        }
    }
}

proof fn lemma_prepend_empty(r: Run)
    ensures
        prepend(Seq::empty(), r) == r,
{
    if let Run::Done(more) = r {
        assert(Seq::<Entry>::empty() + more =~= more);
    }
}

/// The page's entries with keys in the range, and whether a key at or behind the end of the range
/// was met. Nothing where a slot on the way cannot be read.
fn pick(page: &Page, lower: Option<&[u8]>, upper: Option<&[u8]>) -> (r: Option<(Vec<Item>, bool)>)
    ensures
        sweep(page@, bound(lower), bound(upper), 0) == match r {
            Some((out, true)) => Swept::Stopped(items_view(out@)),
            Some((out, false)) => Swept::Through(items_view(out@)),
            None => Swept::Broken,
        },
{
    broadcast use group_key_order;

    let ghost b = page@;
    let ghost lo = bound(lower);
    let ghost hi = bound(upper);
    let ghost whole = sweep(b, lo, hi, 0);
    let mut out: Vec<Item> = Vec::new();
    let count: usize = page.slot_count() as usize;
    let mut i: usize = 0;
    proof {
        assert(items_view(out@) =~= Seq::<Entry>::empty());
        lemma_joined_empty(whole);
    }
    while i < count
        invariant
            b == page@,
            count == slot_count(b),
            i <= count,
            lo == bound(lower),
            hi == bound(upper),
            whole == sweep(b, lo, hi, 0),
            whole == joined(items_view(out@), sweep(b, lo, hi, i as int)),
        decreases count - i,
    {
        broadcast use group_key_order;

        if !page.can_read_slot(i) {
            return None;
        }
        let ghost before = out@;
        if let Some((k, v)) = page.get_key_value_at_slot(i) {
            let ghost e = entry(b, i as int);
            assert(entries(b)[i as int] == e);
            let before_lower: bool = match lower {
                Some(l) => match compare(k, l) {
                    Order::Less => true,
                    _ => false,
                },
                None => false,
            };
            assert(before_lower == early(k@, lo));
            if !before_lower {
                let ends: bool = match upper {
                    Some(u) => match compare(k, u) {
                        Order::Less => false,
                        _ => true,
                    },
                    None => false,
                };
                if ends {
                    assert(items_view(out@) + Seq::<Entry>::empty() =~= items_view(out@));
                    return Some((out, true));
                }
                out.push((slice_to_vec(k), slice_to_vec(v)));
                proof {
                    assert(items_view(out@) =~= items_view(before) + seq![e]);
                    lemma_joined(items_view(before), e, sweep(b, lo, hi, i + 1));
                }
            }
        }
        i += 1;
    }
    assert(items_view(out@) + Seq::<Entry>::empty() =~= items_view(out@));
    Some((out, false))
}

proof fn lemma_joined_empty(w: Swept)
    ensures
        joined(Seq::empty(), w) == w,
{
    match w {
        Swept::Through(more) => assert(Seq::<Entry>::empty() + more =~= more),
        Swept::Stopped(more) => assert(Seq::<Entry>::empty() + more =~= more),
        Swept::Broken => {},
    }
}

proof fn lemma_joined(es: Seq<Entry>, e: Entry, w: Swept)
    ensures
        joined(es, joined(seq![e], w)) == joined(es + seq![e], w),
{
    match w {
        Swept::Through(more) => assert(es + (seq![e] + more) =~= (es + seq![e]) + more),
        Swept::Stopped(more) => assert(es + (seq![e] + more) =~= (es + seq![e]) + more),
        Swept::Broken => {},
    }
}

/// The items are the entries of `c` with keys in the range, in ascending order.
spec fn listed(
    out: Seq<Item>,
    c: Contents,
    lo: Option<Seq<u8>>,
    hi: Option<Seq<u8>>,
) -> bool {
    &&& forall|i: int, j: int|
        0 <= i < j < out.len() ==> key_lt(#[trigger] out[i].0@, #[trigger] out[j].0@)
    &&& forall|i: int|
        0 <= i < out.len() ==> {
            let k = #[trigger] out[i].0@;
            &&& c.contains_key(k)
            &&& c[k] == out[i].1@
            &&& lo is None || lo->0 == k || key_lt(lo->0, k)
            &&& hi is None || key_lt(k, hi->0)
        }
    &&& forall|k: Seq<u8>| #[trigger]
        c.contains_key(k) && (lo is None || lo->0 == k || key_lt(lo->0, k)) && (hi is None
            || key_lt(k, hi->0)) ==> exists|i: int| 0 <= i < out.len() && #[trigger] out[i].0@ == k
}

/// Sorted entries in the range are listed.
pub proof fn lemma_listed(
    out: Seq<Item>,
    c: Contents,
    lo: Option<Seq<u8>>,
    hi: Option<Seq<u8>>,
)
    requires
        sorted(items_view(out)),
        forall|e: Entry| #[trigger]
            items_view(out).contains(e) <==> c.contains_pair(e.0, e.1) && in_range(e.0, lo, hi),
    ensures
        forall|i: int, j: int|
            0 <= i < j < out.len() ==> key_lt(#[trigger] out[i].0@, #[trigger] out[j].0@),
        forall|i: int|
            0 <= i < out.len() ==> {
                let k = #[trigger] out[i].0@;
                &&& c.contains_key(k)
                &&& c[k] == out[i].1@
                &&& lo is None || lo->0 == k || key_lt(lo->0, k)
                &&& hi is None || key_lt(k, hi->0)
            },
        forall|k: Seq<u8>| #[trigger]
            c.contains_key(k) && (lo is None || lo->0 == k || key_lt(lo->0, k)) && (hi is None
                || key_lt(k, hi->0)) ==> exists|i: int|
                0 <= i < out.len() && #[trigger] out[i].0@ == k,
{
    let es = items_view(out);
    assert forall|i: int, j: int| 0 <= i < j < out.len() implies key_lt(
        #[trigger] out[i].0@,
        #[trigger] out[j].0@,
    ) by {
        assert(key_lt(es[i].0, es[j].0));
    }
    assert forall|i: int| 0 <= i < out.len() implies {
        let k = #[trigger] out[i].0@;
        &&& c.contains_key(k)
        &&& c[k] == out[i].1@
        &&& lo is None || lo->0 == k || key_lt(lo->0, k)
        &&& hi is None || key_lt(k, hi->0)
    } by {
        assert(es.contains(es[i]));
        law_half_open_range(es[i].0, lo, hi);
    }
    assert forall|k: Seq<u8>| #[trigger]
        c.contains_key(k) && (lo is None || lo->0 == k || key_lt(lo->0, k)) && (hi is None
            || key_lt(k, hi->0)) implies exists|i: int|
        0 <= i < out.len() && #[trigger] out[i].0@ == k by {
        law_half_open_range(k, lo, hi);
        let e = (k, c[k]);
        assert(es.contains(e));
        let i = choose|i: int| 0 <= i < es.len() && es[i] == e;
        assert(out[i].0@ == k);
    }
}

/// A page that the tree has and the pager lacks can be read from the file it is asked from.
proof fn lemma_wanted(p: FilePager, disk: Disk, x: u32)
    requires
        sound(p, disk),
        owns(p.pages(disk), p.meta.root, p.meta.height as nat, x),
        p.meta.height >= 1,
        !p.store().contains_key(x),
    ensures
        wanted(p, disk, (PageRequest { level: p.level_of(x), id: x })),
{
    let t = p.pages(disk);
    lemma_owned_here(t, top(p.meta.root, p.meta.height as nat), x);
    p.lemma_uncached(disk, x);
}

/// A lookup finds what the tree holds, or lacks a page that can be read.
proof fn lemma_lookup(p: FilePager, disk: Disk, key: Seq<u8>)
    requires
        sound(p, disk),
    ensures
        match sought(p.store(), p.meta.root, p.meta.height as nat, key) {
            Sought::Found(v) => v == value_of(held(p, disk), key),
            Sought::Missing(x) => wanted(
                p,
                disk,
                (PageRequest { level: p.level_of(x), id: x }),
            ),
            Sought::Corrupt(_) => false,
            Sought::Unreadable(_) => false,
        },
{
    p.lemma_store(disk);
    lemma_sought(
        p.store(),
        p.pages(disk),
        p.meta.root,
        p.meta.height as nat,
        p.meta.num_pages as int,
        key,
    );
    if let Sought::Missing(x) = sought(p.store(), p.meta.root, p.meta.height as nat, key) {
        lemma_wanted(p, disk, x);
    }
}

impl Db {
    pub open spec fn wf(&self) -> bool {
        self.pager.wf()
    }

    /// When the files are `disk`, the database is a well-formed tree.
    pub open spec fn sound(&self, disk: Disk) -> bool {
        sound(self.pager, disk)
    }

    /// What the database holds when the files are `disk`.
    pub open spec fn holds(&self, disk: Disk) -> Contents {
        held(self.pager, disk)
    }

    /// The request for page `id`.
    pub open spec fn request(&self, id: u32) -> PageRequest {
        PageRequest { level: self.pager.level_of(id), id }
    }

    fn height(&self) -> (h: u32)
        ensures
            h == self.pager.meta.height,
    {
        self.pager.meta.height
    }

    /// Iterative descent to the leaf that should contain `key`.
    /// Returns `(leaf_page_id, path of internal page_ids from root to parent)`.
    fn find_leaf(&self, key: &[u8]) -> (r: Result<Fetch<(u32, Vec<u32>)>>)
        requires
            self.wf(),
            self.pager.meta.height >= 1,
        ensures
            ({
                let t = self.pager.store();
                let root = self.pager.meta.root;
                let h = self.pager.meta.height as nat;
                match descend(t, root, h, Some(key@)) {
                    Descent::Leaf(l) => {
                        &&& r matches Ok(Fetch::Ready((id, path))) && id == l && id == stop(
                            t,
                            root,
                            key@,
                            (h - 1) as nat,
                        ) && trail(t, root, h, key@, path@)
                    },
                    Descent::Missing(x) => r matches Ok(Fetch::Missing(m)) && m == self.request(x),
                    Descent::Corrupt(_) => refused(r, Error::Io(Fault::BadInternalPage)),
                }
            }),
            r matches Ok(Fetch::Missing(m)) ==> !self.pager.store().contains_key(m.id),
    {
        let ghost t = self.pager.store();
        let ghost root = self.pager.meta.root;
        let height: u32 = self.height();
        let mut path: Vec<u32> = Vec::new();
        let mut current: u32 = self.pager.meta.root;
        let mut depth: u32 = 0;
        while depth < height - 1
            invariant
                self.wf(),
                t == self.pager.store(),
                root == self.pager.meta.root,
                height == self.pager.meta.height,
                height >= 1,
                depth <= height - 1,
                path@.len() == depth,
                current == stop(t, root, key@, depth as nat),
                forall|d: int|
                    0 <= d < path@.len() ==> {
                        &&& #[trigger] path@[d] == stop(t, root, key@, d as nat)
                        &&& t.contains_key(path@[d])
                        &&& leads(t[path@[d]], Some(key@))
                    },
            decreases height - depth,
        {
            proof {
                assert forall|j: nat| j < depth implies t.contains_key(
                    #[trigger] stop(t, root, key@, j),
                ) && leads(t[stop(t, root, key@, j)], Some(key@)) by {
                    assert(path@[j as int] == stop(t, root, key@, j));
                }
                lemma_descend_from(t, root, height as nat, key@, depth as nat);
            }
            match self.pager.read_page(current) {
                Fetch::Missing(m) => {
                    return Ok(Fetch::Missing(m));
                },
                Fetch::Ready(page) => {
                    match InternalPage::from_page(page).try_child(key) {
                        None => {
                            return Err(Error::Io(Fault::BadInternalPage));
                        },
                        Some(child) => {
                            path.push(current);
                            current = child;
                        },
                    }
                },
            }
            depth += 1;
        }
        proof {
            assert forall|j: nat| j < depth implies t.contains_key(
                #[trigger] stop(t, root, key@, j),
            ) && leads(t[stop(t, root, key@, j)], Some(key@)) by {
                assert(path@[j as int] == stop(t, root, key@, j));
            }
            lemma_descend_from(t, root, height as nat, key@, depth as nat);
        }
        Ok(Fetch::Ready((current, path)))
    }

    /// Descent to the first leaf.
    fn find_leftmost_leaf(&self) -> (r: Result<Fetch<u32>>)
        requires
            self.wf(),
            self.pager.meta.height >= 1,
        ensures
            match descend(
                self.pager.store(),
                self.pager.meta.root,
                self.pager.meta.height as nat,
                None,
            ) {
                Descent::Leaf(l) => r matches Ok(Fetch::Ready(id)) && id == l,
                Descent::Missing(x) => r matches Ok(Fetch::Missing(m)) && m == self.request(x),
                Descent::Corrupt(_) => refused(r, Error::Io(Fault::BadInternalPage)),
            },
            r matches Ok(Fetch::Missing(m)) ==> !self.pager.store().contains_key(m.id),
    {
        let ghost t = self.pager.store();
        let ghost root = self.pager.meta.root;
        let height: u32 = self.height();
        let mut current: u32 = self.pager.meta.root;
        let mut left: u32 = height;
        while left > 1
            invariant
                self.wf(),
                t == self.pager.store(),
                root == self.pager.meta.root,
                height == self.pager.meta.height,
                1 <= left <= height,
                descend(t, root, height as nat, None) == descend(t, current, left as nat, None),
            decreases left,
        {
            match self.pager.read_page(current) {
                Fetch::Missing(m) => {
                    return Ok(Fetch::Missing(m));
                },
                Fetch::Ready(page) => {
                    current = InternalPage::from_page(page).leftmost_child();
                },
            }
            left -= 1;
        }
        Ok(Fetch::Ready(current))
    }

    /// The database over the pages of a file.
    pub fn open(pager: FilePager) -> (db: Db)
        ensures
            db.pager == pager,
            !db.frozen,
    {
        Db { pager, frozen: false }
    }

    /// A writable database in a fresh file that overlays the read-only base, the file at
    /// `base_path`.
    pub fn open_overlay(base: FilePager, base_path: String) -> (db: Db)
        requires
            base.wf(),
            base.dirty@ == Map::<u32, Page>::empty(),
            base.level < u32::MAX,
        ensures
            db.wf(),
            !db.frozen,
            db.pager.meta@ == (MetaModel {
                base_offset: base.meta.num_pages,
                base_path: Some(base_path@),
                ..base.meta@
            }),
            db.pager.level == base.level + 1,
            db.pager.base == Some(Box::new(base)),
            db.pager.dirty@ == Map::<u32, Page>::empty(),
            db.pager.clean@ == Map::<u32, Page>::empty(),
            db.pager.copied@ == Seq::new(base.meta.num_pages as nat, |i: int| false),
            forall|disk: Disk|
                sound(base, disk) && disk.len() > db.pager.level ==> (#[trigger] db.sound(disk)
                    && db.holds(disk) == held(base, disk)),
    {
        let db: Db = Db {
            pager: FilePager::create_overlay(base, base_path),
            frozen: false,
        };
        proof {
            assert forall|disk: Disk|
                sound(base, disk) && disk.len() > db.pager.level implies #[trigger] db.sound(disk)
                && db.holds(disk) == held(base, disk) by {
                let t = base.pages(disk);
                let u = db.pager.pages(disk);
                let n = base.meta.num_pages;
                assert forall|x: u32| 1 <= x < n implies #[trigger] same_at(t, u, x) by {
                    assert(db.pager.page_at(disk, x) == base.page_at(disk, x));
                }
                assert forall|x: u32| 1 <= x < n implies #[trigger] u.contains_key(x) by {
                    assert(same_at(t, u, x));
                    assert(t.contains_key(x));
                }
                lemma_same_tree(t, u, base.meta.root, base.meta.height as nat, n as int);
            }
        }
        db
    }

    /// The operations of a sync, which a checkpoint carries out before it links the file.
    pub fn checkpoint(&self) -> (plan: Vec<FileOp>)
        requires
            self.wf(),
            path_fits(self.pager.meta@.base_path),
        ensures
            ops_view(plan@) == sync_ops(self.pager),
            plan@.len() >= 3 && plan@[plan@.len() - 1] is SyncData && plan@[plan@.len() - 2] is Write && plan@[plan@.len()
                - 2]->Write_offset == 0 && plan@[plan@.len() - 3] is SyncData,
    {
        self.pager.sync()
    }

    /// The file was linked: from now on this handle is read-only.
    pub fn freeze(&mut self)
        ensures
            final(self).frozen,
            final(self).pager == old(self).pager,
    {
        self.frozen = true;
    }

    /// The operations that write a complete standalone copy, collapsing any overlay chain, into
    /// an empty file. Does not freeze.
    pub fn full_snapshot(&self) -> (plan: Vec<FileOp>)
        requires
            self.wf(),
        ensures
            ops_view(plan@) == snapshot_ops(self.pager),
            plan@.len() >= 2 && plan@[plan@.len() - 1] is SyncAll && plan@[plan@.len() - 2] is Write
                && plan@[plan@.len() - 2]->Write_offset == 0,
            plan@[plan@.len() - 2]->bytes@.take(8) == seq![83u8, 73, 77, 80, 76, 69, 68, 66],
    {
        let plan: Vec<FileOp> = self.pager.full_snapshot();
        assert(plan@[plan@.len() - 2]->bytes@.take(8) =~= seq![83u8, 73, 77, 80, 76, 69, 68, 66]);
        plan
    }

    pub fn is_frozen(&self) -> (r: bool)
        ensures
            r == self.frozen,
    {
        self.frozen
    }

    /// The operations that bring the file up to date.
    pub fn sync(&self) -> (r: Result<Vec<FileOp>>)
        requires
            self.wf(),
            self.frozen || path_fits(self.pager.meta@.base_path),
        ensures
            match r {
                Ok(plan) => !self.frozen && ops_view(plan@) == sync_ops(self.pager),
                Err(e) => self.frozen && e == Error::Frozen,
            },
            r matches Ok(plan) ==> plan@.len() >= 3 && plan@[plan@.len() - 1] is SyncData && plan@[plan@.len() - 2] is Write && plan@[plan@.len()
                - 2]->Write_offset == 0 && plan@[plan@.len() - 3] is SyncData,
            r matches Err(Error::Frozen) <==> self.frozen,
    {
        if self.frozen {
            return Err(Error::Frozen);
        }
        Ok(self.pager.sync())
    }

    /// The operations that rewrite every page of the file.
    pub fn flush(&self) -> (r: Result<Vec<FileOp>>)
        requires
            self.wf(),
            self.frozen || path_fits(self.pager.meta@.base_path),
        ensures
            match r {
                Ok(plan) => !self.frozen && ops_view(plan@) == flush_ops(self.pager),
                Err(e) => self.frozen && e == Error::Frozen,
            },
            r matches Ok(plan) ==> plan@.len() >= 3 && plan@[plan@.len() - 1] is SyncAll && plan@[plan@.len() - 2] is Write && plan@[plan@.len()
                - 2]->Write_offset == 0 && plan@[plan@.len() - 3] is SyncAll,
            r matches Err(Error::Frozen) <==> self.frozen,
    {
        if self.frozen {
            return Err(Error::Frozen);
        }
        Ok(self.pager.flush())
    }

    /// The operations of a sync or flush were carried out.
    pub fn synced(&mut self)
        requires
            old(self).wf(),
        ensures
            final(self).wf(),
            final(self).frozen == old(self).frozen,
            after_sync(old(self).pager, final(self).pager),
            final(self).pager.dirty@ == Map::<u32, Page>::empty(),
            final(self).pager.meta == old(self).pager.meta,
            final(self).pager.base == old(self).pager.base,
            final(self).pager.copied@ == old(self).pager.copied@,
            path_fits(old(self).pager.meta@.base_path) ==> forall|disk: Disk| #[trigger]
                old(self).sound(disk) ==> {
                    let level = old(self).pager.level as int;
                    let d = apply_all(sync_ops(old(self).pager), level, disk);
                    let e = apply_all(flush_ops(old(self).pager), level, disk);
                    &&& final(self).sound(d) && final(self).holds(d) == old(self).holds(disk)
                    &&& final(self).sound(e) && final(self).holds(e) == old(self).holds(disk)
                },
    {
        self.pager.synced();
        proof {
            let was = old(self).pager;
            if path_fits(was.meta@.base_path) {
                assert forall|disk: Disk| #[trigger] old(self).sound(disk) implies {
                    let d = apply_all(sync_ops(was), was.level as int, disk);
                    let e = apply_all(flush_ops(was), was.level as int, disk);
                    &&& self.sound(d) && self.holds(d) == old(self).holds(disk)
                    &&& self.sound(e) && self.holds(e) == old(self).holds(disk)
                } by {
                    law_sync(was, self.pager, disk);
                    law_flush(was, self.pager, disk);
                }
            }
        }
    }

    /// Takes in a page that an operation asked for.
    pub fn supply(&mut self, id: u32, bytes: &[u8])
        requires
            old(self).wf(),
            bytes@.len() == PAGE_SIZE,
        ensures
            final(self).wf(),
            final(self).frozen == old(self).frozen,
            final(self).pager.meta == old(self).pager.meta,
            final(self).pager.level == old(self).pager.level,
            final(self).pager.dirty@ == old(self).pager.dirty@,
            final(self).pager.copied@ == old(self).pager.copied@,
            final(self).pager.store() == if old(self).pager.resolves(id)
                && !old(self).pager.store().contains_key(id) {
                old(self).pager.store().insert(id, bytes@)
            } else {
                old(self).pager.store()
            },
            forall|x: u32|
                old(self).pager.store().contains_key(x) ==> #[trigger] final(self).pager.percent_at(x)
                    == old(self).pager.percent_at(x),
            old(self).pager.resolves(id) && !old(self).pager.store().contains_key(id)
                ==> final(self).pager.percent_at(id) == 75,
            forall|x: u32| #[trigger]
                final(self).pager.level_of(x) == old(self).pager.level_of(x),
            forall|x: u32| #[trigger]
                final(self).pager.resolves(x) == old(self).pager.resolves(x),
            forall|disk: Disk|
                #![trigger base_opened(old(self).pager, disk)]
                #![trigger base_opened(final(self).pager, disk)]
                base_opened(old(self).pager, disk) ==> base_opened(final(self).pager, disk),
            forall|disk: Disk|
                #![trigger opened(old(self).pager, disk)]
                #![trigger opened(final(self).pager, disk)]
                opened(old(self).pager, disk) ==> opened(final(self).pager, disk),
            forall|disk: Disk| #[trigger] final(self).holds(disk) == old(self).holds(disk),
            forall|disk: Disk| #[trigger]
                old(self).sound(disk) && has_page(disk[old(self).pager.level_of(id) as int], id)
                    && file_page(disk[old(self).pager.level_of(id) as int], id) == bytes@
                    ==> final(self).sound(disk),
    {
        self.pager.supply(id, bytes);
    }

    /// Drops the pages that were read from files.
    pub fn forget(&mut self)
        requires
            old(self).wf(),
        ensures
            final(self).wf(),
            final(self).frozen == old(self).frozen,
            final(self).pager.meta == old(self).pager.meta,
            final(self).pager.level == old(self).pager.level,
            final(self).pager.dirty@ == old(self).pager.dirty@,
            final(self).pager.copied@ == old(self).pager.copied@,
            forall|x: u32| #[trigger]
                final(self).pager.cached(x) == if old(self).pager.tops(x)
                    && old(self).pager.dirty@.contains_key(x) {
                    Some(old(self).pager.dirty@[x]@)
                } else {
                    None
                },
            forall|x: u32| #[trigger]
                final(self).pager.level_of(x) == old(self).pager.level_of(x),
            forall|disk: Disk|
                #![trigger base_opened(old(self).pager, disk)]
                #![trigger base_opened(final(self).pager, disk)]
                base_opened(old(self).pager, disk) ==> base_opened(final(self).pager, disk),
            forall|disk: Disk|
                #![trigger opened(old(self).pager, disk)]
                #![trigger opened(final(self).pager, disk)]
                opened(old(self).pager, disk) ==> opened(final(self).pager, disk),
            forall|disk: Disk| #[trigger]
                old(self).sound(disk) ==> final(self).sound(disk) && final(self).holds(disk)
                    == old(self).holds(disk),
    {
        self.pager.forget();
        proof {
            assert forall|disk: Disk| #[trigger] old(self).sound(disk) implies self.sound(disk)
                && self.holds(disk) == old(self).holds(disk) by {
                assert(self.pager.pages(disk) =~= old(self).pager.pages(disk));
            }
        }
    }

    /// The value under `key`.
    pub fn get(&self, key: &[u8]) -> (r: Result<Fetch<Option<Vec<u8>>>>)
        requires
            self.wf(),
        ensures
            match sought(
                self.pager.store(),
                self.pager.meta.root,
                self.pager.meta.height as nat,
                key@,
            ) {
                Sought::Found(v) => r matches Ok(Fetch::Ready(o)) && match o {
                    Some(b) => v == Some(b@),
                    None => v is None,
                },
                Sought::Missing(x) => r matches Ok(Fetch::Missing(m)) && m == self.request(x),
                Sought::Unreadable(_) => refused(r, Error::Io(Fault::BadPage)),
                Sought::Corrupt(_) => refused(r, Error::Io(Fault::BadInternalPage)),
            },
            r matches Ok(Fetch::Missing(m)) ==> !self.pager.store().contains_key(m.id),
            forall|disk: Disk| #[trigger]
                self.sound(disk) ==> match r {
                    Ok(Fetch::Ready(Some(b))) => self.holds(disk).contains_key(key@)
                        && self.holds(disk)[key@] == b@,
                    Ok(Fetch::Ready(None)) => !self.holds(disk).contains_key(key@),
                    Ok(Fetch::Missing(_)) => true,
                    Err(_) => false,
                },
            forall|disk: Disk| #[trigger]
                self.sound(disk) ==> (r matches Ok(f) && match f {
                    Fetch::Ready(Some(b)) => value_of(self.holds(disk), key@) == Some(b@),
                    Fetch::Ready(None) => value_of(self.holds(disk), key@) is None,
                    Fetch::Missing(m) => wanted(self.pager, disk, m),
                }),
    {
        proof {
            assert forall|disk: Disk| #[trigger] self.sound(disk) implies match sought(
                self.pager.store(),
                self.pager.meta.root,
                self.pager.meta.height as nat,
                key@,
            ) {
                Sought::Found(v) => v == value_of(self.holds(disk), key@),
                Sought::Missing(x) => wanted(self.pager, disk, self.request(x)),
                Sought::Corrupt(_) => false,
                Sought::Unreadable(_) => false,
            } by {
                lemma_lookup(self.pager, disk, key@);
            }
        }
        if self.height() == 0 {
            return Ok(Fetch::Ready(None));
        }
        let leaf_id: u32 = match self.find_leaf(key) {
            Err(e) => {
                return Err(e);
            },
            Ok(Fetch::Missing(m)) => {
                return Ok(Fetch::Missing(m));
            },
            Ok(Fetch::Ready((id, _))) => id,
        };
        match self.pager.read_page(leaf_id) {
            Fetch::Missing(m) => Ok(Fetch::Missing(m)),
            Fetch::Ready(page) => match page.read(key) {
                Some(Some(v)) => Ok(Fetch::Ready(Some(slice_to_vec(v)))),
                Some(None) => Ok(Fetch::Ready(None)),
                None => Err(Error::Io(Fault::BadPage)),
            },
        }
    }

    /// The start of a scan: the way down to the first leaf.
    pub fn scan_start(&self, lower: Option<&[u8]>) -> (r: Result<Fetch<Scan>>)
        requires
            self.wf(),
        ensures
            self.pager.meta.height == 0 ==> (r matches Ok(Fetch::Ready(s)) && s.done
                && items_view(s.out@) == Seq::<Entry>::empty()),
            self.pager.meta.height > 0 ==> match descend(
                self.pager.store(),
                self.pager.meta.root,
                self.pager.meta.height as nat,
                bound(lower),
            ) {
                Descent::Leaf(l) => r matches Ok(Fetch::Ready(s)) && {
                    &&& !s.done
                    &&& items_view(s.out@) == Seq::<Entry>::empty()
                    &&& s.leaf == l
                    &&& s.left == all_ids()
                    &&& s.left == 4294967296
                },
                Descent::Missing(x) => r matches Ok(Fetch::Missing(m)) && m == self.request(x),
                Descent::Corrupt(_) => refused(r, Error::Io(Fault::BadInternalPage)),
            },
            r matches Ok(Fetch::Missing(m)) ==> !self.pager.store().contains_key(m.id),
            r matches Ok(Fetch::Ready(s)) ==> forall|hi: Option<Seq<u8>>, t: Pages|
                part_of(self.pager.store(), t) ==> #[trigger] s.rest(t, bound(lower), hi)
                    == scanned(
                    t,
                    self.pager.meta.root,
                    self.pager.meta.height as nat,
                    bound(lower),
                    hi,
                    all_ids(),
                ),
            forall|disk: Disk| #[trigger]
                self.sound(disk) ==> (r matches Ok(f) && (f matches Fetch::Missing(m) ==> wanted(
                    self.pager,
                    disk,
                    m,
                ))),
    {
        let ghost t = self.pager.store();
        let ghost root = self.pager.meta.root;
        let ghost h = self.pager.meta.height as nat;
        let ghost lo = bound(lower);
        proof {
            assert forall|disk: Disk| #[trigger] self.sound(disk) && h > 0 implies match descend(
                t,
                root,
                h,
                lo,
            ) {
                Descent::Leaf(_) => true,
                Descent::Missing(x) => wanted(self.pager, disk, self.request(x)),
                Descent::Corrupt(_) => false,
            } by {
                if let Some(k) = lo {
                    law_empty_key_first(k);
                }
                self.pager.lemma_store(disk);
                lemma_descend(t, self.pager.pages(disk), top(root, h), lo);
                if let Descent::Missing(x) = descend(t, root, h, lo) {
                    lemma_wanted(self.pager, disk, x);
                }
            }
            assert forall|u: Pages| part_of(t, u) implies match descend(t, root, h, lo) {
                Descent::Leaf(_) => #[trigger] descend(u, root, h, lo) == descend(t, root, h, lo),
                _ => true,
            } by {
                lemma_descend_part(t, u, root, h, lo);
            }
        }
        let out: Vec<Item> = Vec::new();
        assert(items_view(out@) =~= Seq::<Entry>::empty());
        if self.height() == 0 {
            return Ok(Fetch::Ready(Scan { out, leaf: 0, left: 0, done: true }));
        }
        let leaf: u32 = match lower {
            Some(k) => match self.find_leaf(k) {
                Err(e) => {
                    return Err(e);
                },
                Ok(Fetch::Missing(m)) => {
                    return Ok(Fetch::Missing(m));
                },
                Ok(Fetch::Ready((id, _))) => id,
            },
            None => match self.find_leftmost_leaf() {
                Err(e) => {
                    return Err(e);
                },
                Ok(Fetch::Missing(m)) => {
                    return Ok(Fetch::Missing(m));
                },
                Ok(Fetch::Ready(id)) => id,
            },
        };
        let left: u64 = 0x1_0000_0000;
        let scan: Scan = Scan { out, leaf, left, done: false };
        proof {
            assert forall|hi: Option<Seq<u8>>, u: Pages| part_of(t, u) implies #[trigger] scan.rest(
                u,
                lo,
                hi,
            ) == scanned(u, root, h, lo, hi, left as nat) by {
                assert(descend(u, root, h, lo) == Descent::Leaf(leaf));
                lemma_prepend_empty(run(u, leaf, lo, hi, left as nat));
            }
        }
        Ok(Fetch::Ready(scan))
    }

    /// Takes the next leaf into a scan.
    pub fn scan_step(
        &self,
        scan: &mut Scan,
        lower: Option<&[u8]>,
        upper: Option<&[u8]>,
    ) -> (r: Result<Fetch<()>>)
        requires
            self.wf(),
            !old(scan).done,
        ensures
            if old(scan).left == 0 {
                refused(r, Error::Io(Fault::EndlessChain)) && *final(scan) == *old(scan)
            } else if !self.pager.store().contains_key(old(scan).leaf) {
                r matches Ok(Fetch::Missing(m)) && m == self.request(old(scan).leaf)
                    && *final(scan) == *old(scan)
            } else {
                let b = self.pager.store()[old(scan).leaf];
                match sweep(b, bound(lower), bound(upper), 0) {
                    Swept::Through(es) => {
                        &&& r matches Ok(Fetch::Ready(_))
                        &&& items_view(final(scan).out@) == items_view(old(scan).out@) + es
                        &&& final(scan).done == (link(b) == 0)
                        &&& !final(scan).done ==> final(scan).leaf == link(b)
                        &&& final(scan).left == old(scan).left - 1
                    },
                    Swept::Stopped(es) => {
                        &&& r matches Ok(Fetch::Ready(_))
                        &&& items_view(final(scan).out@) == items_view(old(scan).out@) + es
                        &&& final(scan).done
                        &&& final(scan).left == old(scan).left - 1
                    },
                    Swept::Broken => refused(r, Error::Io(Fault::BadPage)) && *final(scan) == *old(
                        scan,
                    ),
                }
            },
            r matches Ok(Fetch::Missing(m)) ==> !self.pager.store().contains_key(m.id),
            forall|t: Pages|
                part_of(self.pager.store(), t) ==> #[trigger] final(scan).rest(
                    t,
                    bound(lower),
                    bound(upper),
                ) == old(scan).rest(t, bound(lower), bound(upper)),
    {
        if scan.left == 0 {
            return Err(Error::Io(Fault::EndlessChain));
        }
        let page: Page = match self.pager.read_page(scan.leaf) {
            Fetch::Missing(m) => {
                return Ok(Fetch::Missing(m));
            },
            Fetch::Ready(page) => page,
        };
        let (mut more, stopped): (Vec<Item>, bool) = match pick(&page, lower, upper) {
            None => {
                return Err(Error::Io(Fault::BadPage));
            },
            Some(found) => found,
        };
        let ghost ps = items_view(more@);
        scan.out.append(&mut more);
        assert(items_view(scan.out@) =~= items_view(old(scan).out@) + ps);
        scan.left = scan.left - 1;
        match page.next_leaf_page_id() {
            Some(next) if !stopped => {
                scan.leaf = next;
            },
            _ => {
                scan.done = true;
            },
        }
        proof {
            let lo = bound(lower);
            let hi = bound(upper);
            let was = *old(scan);
            let start = items_view(was.out@);
            assert forall|t: Pages| part_of(self.pager.store(), t) implies #[trigger] scan.rest(
                t,
                lo,
                hi,
            ) == was.rest(t, lo, hi) by {
                assert(t.contains_key(was.leaf) && t[was.leaf] == page@);
                if !scan.done {
                    match run(t, link(page@), lo, hi, scan.left as nat) {
                        Run::Done(more) => {
                            assert(start + (ps + more) =~= (start + ps) + more);
                        },
                        _ => {},
                    }
                }
            }
        }
        Ok(Fetch::Ready(()))
    }

    /// All entries with keys from `lower` on and in front of `upper`, in ascending order. A
    /// chain of leaves without an end is refused.
    pub fn scan(&self, lower: Option<&[u8]>, upper: Option<&[u8]>) -> (r: Result<
        Fetch<Vec<Item>>,
    >)
        requires
            self.wf(),
        ensures
            match scanned(
                self.pager.store(),
                self.pager.meta.root,
                self.pager.meta.height as nat,
                bound(lower),
                bound(upper),
                all_ids(),
            ) {
                Run::Done(es) => r matches Ok(Fetch::Ready(out)) && items_view(out@) == es,
                Run::Missing(x) => r matches Ok(Fetch::Missing(m)) && m == self.request(x),
                Run::Corrupt(_) => refused(r, Error::Io(Fault::BadInternalPage)),
                Run::Unreadable(_) => refused(r, Error::Io(Fault::BadPage)),
                Run::Endless => refused(r, Error::Io(Fault::EndlessChain)),
            },
            r matches Ok(Fetch::Missing(m)) ==> !self.pager.store().contains_key(m.id),
            forall|disk: Disk| #[trigger]
                self.sound(disk) ==> (r matches Ok(f) && match f {
                    Fetch::Ready(out) => {
                        &&& sorted(items_view(out@))
                        &&& forall|e: Entry| #[trigger]
                            items_view(out@).contains(e) <==> self.holds(disk).contains_pair(
                                e.0,
                                e.1,
                            ) && in_range(e.0, bound(lower), bound(upper))
                        &&& forall|i: int, j: int|
                            0 <= i < j < out@.len() ==> key_lt(
                                #[trigger] out@[i].0@,
                                #[trigger] out@[j].0@,
                            )
                        &&& forall|i: int|
                            0 <= i < out@.len() ==> {
                                &&& self.holds(disk).contains_key(#[trigger] out@[i].0@)
                                &&& self.holds(disk)[out@[i].0@] == out@[i].1@
                                &&& lower is None || lower->0@ == out@[i].0@ || key_lt(
                                    lower->0@,
                                    out@[i].0@,
                                )
                                &&& upper is None || key_lt(out@[i].0@, upper->0@)
                            }
                        &&& forall|k: Seq<u8>|
                            #![trigger self.holds(disk).contains_key(k)]
                            self.holds(disk).contains_key(k) && (lower is None || lower->0@ == k
                                || key_lt(lower->0@, k)) && (upper is None || key_lt(k, upper->0@))
                                ==> exists|i: int|
                                0 <= i < out@.len() && #[trigger] out@[i].0@ == k
                    },
                    Fetch::Missing(m) => wanted(self.pager, disk, m),
                }),
    {
        let ghost t = self.pager.store();
        let ghost lo = bound(lower);
        let ghost hi = bound(upper);
        let ghost whole = scanned(
            t,
            self.pager.meta.root,
            self.pager.meta.height as nat,
            lo,
            hi,
            all_ids(),
        );
        proof {
            assert forall|disk: Disk| #[trigger] self.sound(disk) implies match whole {
                Run::Done(es) => {
                    &&& sorted(es)
                    &&& forall|e: Entry| #[trigger]
                        es.contains(e) <==> self.holds(disk).contains_pair(e.0, e.1) && in_range(
                            e.0,
                            lo,
                            hi,
                        )
                },
                Run::Missing(x) => wanted(self.pager, disk, self.request(x)),
                Run::Corrupt(_) => false,
                Run::Unreadable(_) => false,
                Run::Endless => false,
            } by {
                self.pager.lemma_store(disk);
                lemma_scanned(
                    t,
                    self.pager.pages(disk),
                    self.pager.meta.root,
                    self.pager.meta.height as nat,
                    self.pager.meta.num_pages as int,
                    lo,
                    hi,
                    all_ids(),
                );
                if let Run::Missing(x) = whole {
                    lemma_wanted(self.pager, disk, x);
                }
            }
            assert(part_of(t, t));
        }
        let mut scan: Scan = match self.scan_start(lower) {
            Err(e) => {
                return Err(e);
            },
            Ok(Fetch::Missing(m)) => {
                return Ok(Fetch::Missing(m));
            },
            Ok(Fetch::Ready(scan)) => scan,
        };
        assert(scan.rest(t, lo, hi) == whole);
        while !scan.done
            invariant
                self.wf(),
                t == self.pager.store(),
                part_of(t, t),
                lo == bound(lower),
                hi == bound(upper),
                whole == scanned(
                    t,
                    self.pager.meta.root,
                    self.pager.meta.height as nat,
                    lo,
                    hi,
                    all_ids(),
                ),
                scan.rest(t, lo, hi) == whole,
                forall|disk: Disk| #[trigger]
                    self.sound(disk) ==> match whole {
                        Run::Done(es) => {
                            &&& sorted(es)
                            &&& forall|e: Entry| #[trigger]
                                es.contains(e) <==> self.holds(disk).contains_pair(e.0, e.1)
                                    && in_range(e.0, lo, hi)
                        },
                        Run::Missing(x) => wanted(self.pager, disk, self.request(x)),
                        Run::Corrupt(_) => false,
                        Run::Unreadable(_) => false,
                        Run::Endless => false,
                    },
            decreases scan.left,
        {
            match self.scan_step(&mut scan, lower, upper) {
                Err(e) => {
                    return Err(e);
                },
                Ok(Fetch::Missing(m)) => {
                    return Ok(Fetch::Missing(m));
                },
                Ok(Fetch::Ready(_)) => {},
            }
        }
        proof {
            assert forall|disk: Disk| #[trigger] self.sound(disk) implies listed(
                scan.out@,
                self.holds(disk),
                lo,
                hi,
            ) by {
                lemma_listed(scan.out@, self.holds(disk), lo, hi);
            }
        }
        Ok(Fetch::Ready(scan.out))
    }

    /// Whether there are page ids left for all pages that this insertion can take. One that is
    /// refused, lacks a page or goes into a leaf with room takes none.
    pub fn has_room_for(&self, key: &[u8], value: &[u8]) -> (r: bool)
        requires
            self.wf(),
        ensures
            r == (self.frozen || !entry_fits(key@, value@) || room(self.pager) || !grows(
                self.pager,
                key@,
                value@,
            )),
            self.frozen ==> r,
            key@.len() > 1024 ==> r,
            7 + key@.len() + value@.len() > 2048 ==> r,
            self.pager.meta.num_pages + self.pager.meta.height + 1 <= u32::MAX ==> r,
    {
        let height: u32 = self.pager.meta.height;
        if self.frozen || key.len() > MAX_KEY || value.len() > MAX_ENTRY - LEAF_ENTRY_OVERHEAD
            - key.len() {
            return true;
        }
        if height < u32::MAX && self.pager.meta.num_pages <= u32::MAX - 1 - height {
            return true;
        }
        if height == 0 {
            return false;
        }
        let leaf_id: u32 = match self.find_leaf(key) {
            Ok(Fetch::Ready((id, _))) => id,
            _ => {
                return true;
            },
        };
        match self.pager.read_page(leaf_id) {
            Fetch::Missing(_) => true,
            Fetch::Ready(page) => {
                if !page.is_readable() {
                    return true;
                }
                let mut leaf: LeafPage = LeafPage::from_page(page);
                !leaf.is_splittable() || leaf.insert(key, value)
            },
        }
    }

    /// Puts `value` under `key`.
    #[verifier::spinoff_prover]
    #[verifier::rlimit(60)]
    pub fn insert(&mut self, key: &[u8], value: &[u8]) -> (r: Result<Fetch<()>>)
        requires
            old(self).wf(),
            old(self).frozen || !entry_fits(key@, value@) || room(old(self).pager) || !grows(
                old(self).pager,
                key@,
                value@,
            ),
        ensures
            final(self).wf(),
            final(self).frozen == old(self).frozen,
            final(self).pager.level == old(self).pager.level,
            final(self).pager.base == old(self).pager.base,
            final(self).pager.meta.base_offset == old(self).pager.meta.base_offset,
            final(self).pager.meta.base_path == old(self).pager.meta.base_path,
            old(self).pager.meta.num_pages <= final(self).pager.meta.num_pages,
            final(self).pager.meta.num_pages <= old(self).pager.meta.num_pages
                + old(self).pager.meta.height + 1,
            old(self).pager.meta.height <= final(self).pager.meta.height,
            final(self).pager.meta.height <= old(self).pager.meta.height + 1,
            r matches Ok(Fetch::Ready(_)) ==> at_hand(old(self).pager, final(self).pager),
            r matches Ok(Fetch::Ready(_)) ==> widened(
                old(self).pager,
                final(self).pager,
                key@,
                value@,
            ),
            old(self).pager.meta.height > 0 ==> (r matches Ok(Fetch::Ready(_)) ==> {
                let was = old(self).pager.meta;
                let now = final(self).pager.meta;
                let taken = now.num_pages - was.num_pages;
                if leaf_takes(old(self).pager, key@, value@) {
                    now == was
                } else {
                    ||| {
                        &&& 1 <= taken < was.height
                        &&& now.root == was.root
                        &&& now.height == was.height
                    }
                    ||| {
                        &&& taken == was.height + 1
                        &&& now.root == now.num_pages - 1
                        &&& now.height == was.height + 1
                    }
                }
            }),
            old(self).pager.meta.height == 0 ==> (r matches Ok(Fetch::Ready(_)) ==> {
                &&& final(self).pager.meta.root == old(self).pager.meta.num_pages
                &&& final(self).pager.meta.num_pages == old(self).pager.meta.num_pages + 1
                &&& final(self).pager.meta.height == 1
            }),
            old(self).frozen ==> refused(r, Error::Frozen),
            !old(self).frozen && key@.len() > MAX_KEY ==> refused(
                r,
                (Error::KeyTooLarge { key: key@.len() as usize, limit: MAX_KEY }),
            ),
            !old(self).frozen && key@.len() <= MAX_KEY && !entry_fits(key@, value@) ==> refused(
                r,
                (Error::EntryTooLarge {
                    key: key@.len() as usize,
                    value: value@.len() as usize,
                    limit: (MAX_ENTRY - LEAF_ENTRY_OVERHEAD) as usize,
                }),
            ),
            r matches Err(Error::Frozen) <==> old(self).frozen,
            r matches Err(Error::KeyTooLarge { key: k, limit: l }) ==> !old(self).frozen
                && key@.len() > 1024 && k == key@.len() && l == 1024,
            !old(self).frozen && key@.len() > 1024 ==> r matches Err(Error::KeyTooLarge { .. }),
            r matches Err(Error::EntryTooLarge { key: k, value: v, limit: l }) ==> {
                &&& !old(self).frozen
                &&& key@.len() <= 1024
                &&& 7 + key@.len() + value@.len() > 2048
                &&& k == key@.len()
                &&& v == value@.len()
                &&& l == 2041
            },
            !old(self).frozen && key@.len() <= 1024 && 7 + key@.len() + value@.len() > 2048 ==> (
            r matches Err(Error::EntryTooLarge { .. })),
            forall|disk: Disk| #[trigger]
                old(self).sound(disk) && !old(self).frozen && key@.len() <= 1024 && 7 + key@.len()
                    + value@.len() <= 2048 ==> r is Ok,
            r matches Ok(Fetch::Missing(_)) ==> *final(self) == *old(self),
            old(self).frozen || key@.len() > 1024 || 7 + key@.len() + value@.len() > 2048
                ==> *final(self) == *old(self),
            r matches Ok(Fetch::Missing(m)) ==> !old(self).pager.store().contains_key(m.id),
            !old(self).frozen && entry_fits(key@, value@) ==> match sought(
                old(self).pager.store(),
                old(self).pager.meta.root,
                old(self).pager.meta.height as nat,
                key@,
            ) {
                Sought::Missing(x) => r matches Ok(Fetch::Missing(m)) && m == old(self).request(x)
                    && *final(self) == *old(self),
                Sought::Corrupt(_) => refused(r, Error::Io(Fault::BadInternalPage))
                    && *final(self) == *old(self),
                _ => {
                    &&& match r {
                        Ok(f) => f is Ready,
                        Err(e) => e is Io,
                    }
                    &&& foreseen(old(self).pager, key@, value@) ==> match obstacle(
                        old(self).pager,
                        key@,
                        value@,
                    ) {
                        Some(f) => refused(r, Error::Io(f)),
                        None => r is Ok,
                    }
                },
            },
            old(self).frozen || !entry_fits(key@, value@) ==> *final(self) == *old(self),
            forall|disk: Disk| #[trigger]
                old(self).sound(disk) ==> {
                    &&& final(self).sound(disk)
                    &&& final(self).holds(disk) == if r matches Ok(Fetch::Ready(_)) {
                        old(self).holds(disk).insert(key@, value@)
                    } else {
                        old(self).holds(disk)
                    }
                    &&& r matches Ok(Fetch::Missing(m)) ==> wanted(old(self).pager, disk, m)
                    &&& old(self).pager.meta.height > 0 ==> (r matches Ok(Fetch::Ready(_))
                        ==> plain_path(
                        old(self).pager,
                        way(old(self).pager, key@).push(way_end(old(self).pager, key@)),
                    ))
                    &&& !old(self).frozen && entry_fits(key@, value@) ==> r is Ok
                },
    {
        if self.frozen {
            return Err(Error::Frozen);
        }
        if key.len() > MAX_KEY {
            return Err(Error::KeyTooLarge { key: key.len(), limit: MAX_KEY });
        }
        if value.len() > MAX_ENTRY - LEAF_ENTRY_OVERHEAD - key.len() {
            return Err(
                Error::EntryTooLarge {
                    key: key.len(),
                    value: value.len(),
                    limit: MAX_ENTRY - LEAF_ENTRY_OVERHEAD,
                },
            );
        }
        let ghost first = *self;
        if self.height() == 0 {
            let root_id: u32 = self.pager.new_page();
            self.pager.set_root(root_id, 1);
            proof {
                assert forall|disk: Disk| #[trigger] first.sound(disk) implies self.sound(disk)
                    && self.holds(disk) == first.holds(disk) by {
                    let t = first.pager.pages(disk);
                    let nb = empty_page(root_id);
                    assert(self.pager.pages(disk) == t.insert(root_id, nb));
                    lemma_root_leaf(t, nb, root_id);
                    assert(first.holds(disk) =~= Contents::empty());
                }
            }
        }
        let ghost was = *self;
        proof {
            assert forall|disk: Disk| #[trigger] was.sound(disk) implies match sought(
                was.pager.store(),
                was.pager.meta.root,
                was.pager.meta.height as nat,
                key@,
            ) {
                Sought::Found(_) => true,
                Sought::Missing(x) => wanted(was.pager, disk, was.request(x)),
                Sought::Corrupt(_) => false,
                Sought::Unreadable(_) => false,
            } by {
                lemma_lookup(was.pager, disk, key@);
            }
            assert(forall|disk: Disk| #[trigger]
                first.sound(disk) ==> sound(was.pager, disk) && was.holds(disk) == first.holds(
                    disk,
                ));
        }
        let (leaf_id, path): (u32, Vec<u32>) = match self.find_leaf(key) {
            Err(e) => {
                return Err(e);
            },
            Ok(Fetch::Missing(m)) => {
                return Ok(Fetch::Missing(m));
            },
            Ok(Fetch::Ready(found)) => found,
        };
        proof {
            assert forall|disk: Disk| #[trigger] sound(was.pager, disk) implies plain_path(
                was.pager,
                way(was.pager, key@).push(way_end(was.pager, key@)),
            ) by {
                lemma_way_plain(was.pager, disk, key@, path@);
            }
        }
        let page: Page = match self.pager.page_mut(leaf_id) {
            Fetch::Missing(m) => {
                return Ok(Fetch::Missing(m));
            },
            Fetch::Ready(page) => page,
        };
        let ghost loaded = *self;
        let ghost pb = page@;
        proof {
            assert forall|disk: Disk| #[trigger] sound(was.pager, disk) implies leaf_ok(pb) by {
                was.pager.lemma_store(disk);
                lemma_leaf_spot(was.pager, disk, key@, leaf_id);
            }
            if page_ok(pb) {
                lemma_page_ok(pb);
                lemma_leaf(pb);
            }
        }
        if !page.is_readable() {
            return Err(Error::Io(Fault::BadLeafPage));
        }
        let mut leaf: LeafPage = LeafPage::from_page(page);
        if leaf.insert(key, value) {
            let changed: Page = leaf.into_page();
            self.pager.write_page(leaf_id, changed);
            proof {
                assert forall|disk: Disk| #[trigger] sound(was.pager, disk) implies self.sound(disk)
                    && self.holds(disk) == was.holds(disk).insert(key@, value@) by {
                    lemma_put(was.pager, self.pager, disk, key@, value@, leaf_id, pb, changed@);
                }
            }
            return Ok(Fetch::Ready(()));
        }
        let new_right_leaf_id: u32 = self.pager.meta.num_pages;
        match leaf.split(key, value, new_right_leaf_id) {
            None => {
                proof {
                    assert forall|disk: Disk| sound(was.pager, disk) implies false by {
                        was.pager.lemma_store(disk);
                        lemma_leaf_spot(was.pager, disk, key@, leaf_id);
                    }
                }
                Err(Error::Io(Fault::BadLeafPage))
            },
            Some(split) => {
                let id: u32 = self.pager.allocate();
                let changed: Page = leaf.into_page();
                let ghost all = upsert(live(pb), key@, value@);
                let ghost m = entries(changed@).len() as int;
                let ghost rb = split.right_page@;
                proof {
                    assert(entry_fits(entries(rb)[0].0, entries(rb)[0].1));
                    assert(entries(rb)[0] == all[m]);
                }
                self.pager.write_page(leaf_id, changed);
                self.pager.write_page(new_right_leaf_id, split.right_page);
                proof {
                    assert forall|disk: Disk| #[trigger] sound(was.pager, disk) implies parted(
                        was.pager,
                        self.pager,
                        disk,
                        key@,
                        value@,
                        path@,
                        path@.len(),
                        all[m].0,
                        new_right_leaf_id,
                    ) by {
                        assert(loaded.pager.faithful(disk));
                        lemma_leaf_parted(
                            was.pager,
                            self.pager,
                            disk,
                            key@,
                            value@,
                            path@,
                            leaf_id,
                            changed@,
                            rb,
                            m,
                        );
                    }
                }
                let ghost parts = *self;
                let ghost up = path@;
                proof {
                    lemma_obstacle(was.pager, parts.pager, up, leaf_id, key@, value@, m);
                }
                match self.propagate_split(
                    path,
                    split.separator_key,
                    new_right_leaf_id,
                    Ghost(was.pager),
                    Ghost(key@),
                    Ghost(value@),
                ) {
                    Ok(_) => {
                        proof {
                            lemma_widened(
                                was.pager,
                                parts.pager,
                                self.pager,
                                up,
                                leaf_id,
                                key@,
                                value@,
                                m,
                            );
                        }
                        Ok(Fetch::Ready(()))
                    },
                    Err(e) => Err(e),
                }
            },
        }
    }

    /// Removes `key`. Returns whether it was there. Pages are not merged: root, height and
    /// number of pages stay, and a leaf may be left without entries.
    #[verifier::spinoff_prover]
    #[verifier::rlimit(60)]
    pub fn delete(&mut self, key: &[u8]) -> (r: Result<Fetch<bool>>)
        requires
            old(self).wf(),
        ensures
            final(self).wf(),
            final(self).frozen == old(self).frozen,
            final(self).pager.meta == old(self).pager.meta,
            final(self).pager.level == old(self).pager.level,
            final(self).pager.base == old(self).pager.base,
            at_hand(old(self).pager, final(self).pager),
            old(self).frozen ==> refused(r, Error::Frozen),
            !old(self).frozen ==> match sought(
                old(self).pager.store(),
                old(self).pager.meta.root,
                old(self).pager.meta.height as nat,
                key@,
            ) {
                Sought::Missing(x) => r matches Ok(Fetch::Missing(m)) && m == old(self).request(x),
                Sought::Corrupt(_) => refused(r, Error::Io(Fault::BadInternalPage)),
                _ => if old(self).pager.meta.height == 0 {
                    r matches Ok(Fetch::Ready(b)) && !b
                } else {
                    match removal(old(self).pager.store()[way_end(old(self).pager, key@)], key@) {
                        Ok(v) => r matches Ok(Fetch::Ready(b)) && b == v is Some,
                        Err(f) => refused(r, Error::Io(f)),
                    }
                },
            },
            r matches Err(Error::Frozen) <==> old(self).frozen,
            r matches Ok(Fetch::Missing(m)) ==> !old(self).pager.store().contains_key(m.id),
            !(r matches Ok(Fetch::Ready(_))) ==> *final(self) == *old(self),
            r matches Ok(Fetch::Ready(_)) ==> final(self).pager.dirty@.dom() == match descend(
                old(self).pager.store(),
                old(self).pager.meta.root,
                old(self).pager.meta.height as nat,
                Some(key@),
            ) {
                Descent::Leaf(l) if old(self).pager.meta.height > 0 => {
                    old(self).pager.dirty@.dom().insert(l)
                },
                _ => old(self).pager.dirty@.dom(),
            },
            forall|disk: Disk| #[trigger]
                old(self).sound(disk) ==> {
                    &&& final(self).sound(disk)
                    &&& final(self).holds(disk) == if r matches Ok(Fetch::Ready(_)) {
                        old(self).holds(disk).remove(key@)
                    } else {
                        old(self).holds(disk)
                    }
                    &&& r matches Ok(Fetch::Ready(b)) ==> b == old(self).holds(disk).contains_key(
                        key@,
                    )
                    &&& r matches Ok(Fetch::Missing(m)) ==> wanted(old(self).pager, disk, m)
                    &&& !old(self).frozen ==> r is Ok
                },
    {
        if self.frozen {
            return Err(Error::Frozen);
        }
        let ghost was = *self;
        proof {
            assert forall|disk: Disk| #[trigger] was.sound(disk) implies match sought(
                was.pager.store(),
                was.pager.meta.root,
                was.pager.meta.height as nat,
                key@,
            ) {
                Sought::Found(v) => v == value_of(was.holds(disk), key@),
                Sought::Missing(x) => wanted(was.pager, disk, was.request(x)),
                Sought::Corrupt(_) => false,
                Sought::Unreadable(_) => false,
            } by {
                lemma_lookup(was.pager, disk, key@);
            }
        }
        if self.height() == 0 {
            assert forall|disk: Disk| #[trigger] was.sound(disk) implies was.holds(disk)
                == was.holds(disk).remove(key@) by {
                assert(was.holds(disk) =~= was.holds(disk).remove(key@));
            }
            return Ok(Fetch::Ready(false));
        }
        let leaf_id: u32 = match self.find_leaf(key) {
            Err(e) => {
                return Err(e);
            },
            Ok(Fetch::Missing(m)) => {
                return Ok(Fetch::Missing(m));
            },
            Ok(Fetch::Ready((id, _))) => id,
        };
        let page: Page = match self.pager.read_page(leaf_id) {
            Fetch::Missing(m) => {
                return Ok(Fetch::Missing(m));
            },
            Fetch::Ready(page) => page,
        };
        let ghost pb = page@;
        proof {
            assert forall|disk: Disk| #[trigger] was.sound(disk) implies leaf_ok(pb) by {
                was.pager.lemma_store(disk);
                lemma_leaf_spot(was.pager, disk, key@, leaf_id);
            }
            if page_ok(pb) {
                lemma_page_ok(pb);
                lemma_leaf(pb);
                assert(removal(pb, key@) == Ok::<_, Fault>(lookup(entries(pb), key@)));
                assert(reading(pb, key@) == Some(lookup(entries(pb), key@)));
            }
        }
        let mut leaf: LeafPage = LeafPage::from_page(page);
        let existed: bool = match leaf.remove(key) {
            Ok(old_value) => old_value.is_some(),
            Err(f) => {
                return Err(Error::Io(f));
            },
        };
        let changed: Page = leaf.into_page();
        self.pager.write_page(leaf_id, changed);
        proof {
            assert(self.pager.dirty@.dom() =~= was.pager.dirty@.dom().insert(leaf_id));
            assert forall|disk: Disk| #[trigger] was.sound(disk) implies self.sound(disk)
                && self.holds(disk) == was.holds(disk).remove(key@) && existed == was.holds(
                disk,
            ).contains_key(key@) by {
                let t = was.pager.pages(disk);
                let root = was.pager.meta.root;
                let h = was.pager.meta.height as nat;
                let a = was.pager.meta.num_pages as int;
                was.pager.lemma_store(disk);
                lemma_leaf_spot(was.pager, disk, key@, leaf_id);
                let d = (h - 1) as nat;
                let s = top(root, h);
                let z = walk(t, s, key@, d);
                let u = self.pager.pages(disk);
                assert(u == t.insert(leaf_id, changed@));
                lemma_leaf_one(t, z, key@, None, changed@, a);
                lemma_climb_one(t, u, s, key@, None, a, a, d);
                lemma_root_one(t, u, root, h, key@, None, a, a);
            }
        }
        Ok(Fetch::Ready(existed))
    }

    /// Puts a separator and the child behind it into page `id`, or splits the page where it has
    /// no room. A split returns the separator that moves up and the new page.
    #[verifier::spinoff_prover]
    #[verifier::rlimit(60)]
    fn take_separator(&mut self, id: u32, sep: &[u8], right: u32) -> (r: Result<
        Option<(Vec<u8>, u32)>,
    >)
        requires
            old(self).wf(),
            old(self).pager.store().contains_key(id),
            sep@.len() <= MAX_SEPARATOR,
            old(self).pager.meta.num_pages < u32::MAX,
        ensures
            final(self).frozen == old(self).frozen,
            ({
                let b = old(self).pager.store()[id];
                let fits = put_fits(
                    b,
                    old(self).pager.percent_at(id) as int,
                    sep@,
                    u32_bytes(right),
                );
                match r {
                    Err(e) => {
                        &&& *final(self) == *old(self)
                        &&& if internal_ok(b) {
                            has_key(entries(b), sep@) && e == Error::Io(Fault::DuplicateSeparator)
                        } else {
                            e == Error::Io(Fault::BadInternalPage)
                        }
                    },
                    Ok(o) => {
                        &&& internal_ok(b)
                        &&& !has_key(entries(b), sep@)
                        &&& fits <==> o is None
                    },
                }
            }),
            r matches Ok(None) ==> exists|nb: Seq<u8>| #[trigger]
                node_took(old(self).pager, final(self).pager, id, sep@, right, nb),
            r matches Ok(Some(s)) ==> s.1 == old(self).pager.meta.num_pages
                && some_split(old(self).pager, final(self).pager, id, sep@, right, s.0@),
    {
        let ghost p = self.pager;
        let page: Page = match self.pager.read_page(id) {
            Fetch::Ready(page) => page,
            Fetch::Missing(_) => {
                return Err(Error::Io(Fault::BadInternalPage));
            },
        };
        let ghost pb = page@;
        let mut node: InternalPage = InternalPage::from_page(page);
        if !node.is_internal() {
            return Err(Error::Io(Fault::BadInternalPage));
        }
        match node.insert(sep, right) {
            Insertion::Duplicate => {
                return Err(Error::Io(Fault::DuplicateSeparator));
            },
            Insertion::Done => {
                let changed: Page = node.into_page();
                self.pager.write_page(id, changed);
                proof {
                    reveal(page_written);
                    reveal(node_took);
                    assert(node_took(p, self.pager, id, sep@, right, changed@));
                }
                return Ok(None);
            },
            Insertion::PageFull => {},
        }
        let above: (Vec<u8>, u32) = self.split_node(id, node, sep, right);
        Ok(Some(above))
    }

    /// Splits page `id`, whose content is `node`, around a separator that it has no room for.
    #[verifier::spinoff_prover]
    #[verifier::rlimit(60)]
    fn split_node(&mut self, id: u32, node: InternalPage, sep: &[u8], right: u32) -> (r: (
        Vec<u8>,
        u32,
    ))
        requires
            old(self).wf(),
            old(self).pager.store().contains_key(id),
            internal_ok(old(self).pager.store()[id]),
            internal_ok(node@),
            entries(node@) == entries(old(self).pager.store()[id]),
            link(node@) == link(old(self).pager.store()[id]),
            !has_key(entries(node@), sep@),
            sep@.len() <= MAX_SEPARATOR,
            old(self).pager.meta.num_pages < u32::MAX,
        ensures
            final(self).frozen == old(self).frozen,
            r.1 == old(self).pager.meta.num_pages,
            some_split(old(self).pager, final(self).pager, id, sep@, right, r.0@),
    {
        let ghost p = self.pager;
        let mut node: InternalPage = node;
        let new_right_id: u32 = self.pager.allocate();
        let split: InternalSplit = node.split(sep, right, new_right_id);
        let changed: Page = node.into_page();
        let ghost m = entries(changed@).len() as int;
        let ghost rb = split.right_page@;
        let ghost p1 = self.pager;
        proof {
            lemma_moves_up(p.store()[id], sep@, right, m);
        }
        self.pager.write_page(id, changed);
        let ghost p2 = self.pager;
        assert(page_written(p1, p2, id, changed@, 75)) by {
            reveal(page_written);
        }
        self.pager.write_page(new_right_id, split.right_page);
        let up: Vec<u8> = split.separator_key;
        assert(page_written(p2, self.pager, new_right_id, rb, 75)) by {
            reveal(page_written);
        }
        proof {
            lemma_node_split(p, p1, p2, self.pager, id, sep@, right, up@, changed@, rb, m);
            assert(some_split(p, self.pager, id, sep@, right, up@));
        }
        (up, new_right_id)
    }

    /// Walks `path` bottom-up, inserting split separators into parent internal nodes.
    /// When the path is exhausted a new root is created and height increments.
    #[verifier::spinoff_prover]
    #[verifier::rlimit(60)]
    fn propagate_split(
        &mut self,
        path: Vec<u32>,
        sep_key: Vec<u8>,
        right_child: u32,
        Ghost(was): Ghost<FilePager>,
        Ghost(key): Ghost<Seq<u8>>,
        Ghost(value): Ghost<Seq<u8>>,
    ) -> (r: Result<()>)
        requires
            old(self).wf(),
            sep_key@.len() <= MAX_SEPARATOR,
            old(self).pager.meta.height == was.meta.height,
            old(self).pager.meta.root == was.meta.root,
            old(self).pager.meta.base_offset == was.meta.base_offset,
            old(self).pager.meta.base_path == was.meta.base_path,
            old(self).pager.base == was.base,
            path@.len() + 1 == was.meta.height,
            was.meta.num_pages <= old(self).pager.meta.num_pages,
            old(self).pager.meta.num_pages + path@.len() < u32::MAX,
            was.meta.height < u32::MAX,
            forall|i: int|
                0 <= i < path@.len() ==> old(self).pager.store().contains_key(#[trigger] path@[i]),
            forall|disk: Disk| #[trigger]
                sound(was, disk) ==> parted(
                    was,
                    old(self).pager,
                    disk,
                    key,
                    value,
                    path@,
                    path@.len(),
                    sep_key@,
                    right_child,
                ),
        ensures
            final(self).wf(),
            final(self).frozen == old(self).frozen,
            final(self).pager.level == old(self).pager.level,
            final(self).pager.base == old(self).pager.base,
            final(self).pager.meta.base_offset == was.meta.base_offset,
            final(self).pager.meta.base_path == was.meta.base_path,
            old(self).pager.meta.num_pages <= final(self).pager.meta.num_pages,
            final(self).pager.meta.num_pages <= old(self).pager.meta.num_pages + path@.len() + 1,
            old(self).pager.meta.height <= final(self).pager.meta.height,
            final(self).pager.meta.height <= old(self).pager.meta.height + 1,
            r is Ok ==> at_hand(old(self).pager, final(self).pager),
            r is Ok ==> grown_along(
                old(self).pager,
                final(self).pager,
                path@,
                sep_key@,
                right_child,
            ),
            match r {
                Ok(_) => true,
                Err(e) => e == Error::Io(Fault::BadInternalPage) || e == Error::Io(
                    Fault::DuplicateSeparator,
                ),
            },
            plain_path(old(self).pager, path@) ==> match stuck(
                old(self).pager,
                path@,
                path@.len(),
                sep_key@,
                right_child,
                old(self).pager.meta.num_pages as int,
            ) {
                Some(f) => refused(r, Error::Io(f)),
                None => r is Ok,
            },
            forall|disk: Disk| #[trigger]
                sound(was, disk) ==> {
                    &&& plain_path(old(self).pager, path@)
                    &&& r is Ok
                    &&& final(self).sound(disk)
                    &&& final(self).holds(disk) == held(was, disk).insert(key, value)
                },
    {
        let ghost start = self.pager;
        let ghost sep0 = sep_key@;
        let mut up_key: Vec<u8> = sep_key;
        let mut up_child: u32 = right_child;
        let mut depth: usize = path.len();
        proof {
            lemma_shape_start(start, path@, sep0, right_child);
            assert forall|disk: Disk| #[trigger] sound(was, disk) implies plain_path(
                start,
                path@,
            ) by {
                lemma_parted_plain(was, start, disk, key, value, path@, sep0, right_child);
            }
        }
        while depth > 0
            invariant
                self.wf(),
                self.frozen == old(self).frozen,
                self.pager.level == start.level,
                self.pager.base == start.base,
                start == old(self).pager,
                sep0 == sep_key@,
                start.base == was.base,
                start.meta.height == was.meta.height,
                start.meta.root == was.meta.root,
                start.meta.base_offset == was.meta.base_offset,
                start.meta.base_path == was.meta.base_path,
                was.meta.num_pages <= start.meta.num_pages,
                depth <= path@.len(),
                path@.len() + 1 == was.meta.height,
                forall|disk: Disk| #[trigger] sound(was, disk) ==> plain_path(start, path@),
                up_key@.len() <= MAX_SEPARATOR,
                shape(
                    start,
                    self.pager,
                    path@,
                    depth as nat,
                    sep0,
                    right_child,
                    up_key@,
                    up_child,
                ),
                forall|disk: Disk| #[trigger]
                    sound(was, disk) ==> parted(
                        was,
                        self.pager,
                        disk,
                        key,
                        value,
                        path@,
                        depth as nat,
                        up_key@,
                        up_child,
                    ),
            decreases depth,
        {
            let parent_id: u32 = path[depth - 1];
            let ghost now = self.pager;
            let ghost sep = up_key@;
            let ghost right = up_child;
            let ghost d = depth as nat;
            proof {
                lemma_shape_facts(start, now, path@, d, sep0, right_child, sep, right);
                assert(now.store().contains_key(path@[depth - 1]));
                assert(climbing(was, now, path@, d));
                assert forall|disk: Disk| #[trigger] sound(was, disk) implies internal_ok(
                    now.store()[parent_id],
                ) && !has_key(entries(now.store()[parent_id]), sep) by {
                    lemma_parent(was, now, disk, key, value, path@, d, sep, right);
                }
            }
            match self.take_separator(parent_id, up_key.as_slice(), up_child) {
                Err(e) => {
                    proof {
                        lemma_shape_stuck(start, now, path@, d, sep0, right_child, sep, right);
                    }
                    return Err(e);
                },
                Ok(None) => {
                    proof {
                        let q = self.pager;
                        let nb = choose|nb: Seq<u8>| node_took(now, q, parent_id, sep, right, nb);
                        lemma_shape_took(start, now, q, path@, d, sep0, right_child, sep, right, nb);
                        assert forall|disk: Disk| #[trigger] sound(was, disk) implies self.sound(
                            disk,
                        ) && self.holds(disk) == held(was, disk).insert(key, value) by {
                            lemma_took(was, now, q, disk, key, value, path@, d, sep, right, nb);
                        }
                    }
                    return Ok(());
                },
                Ok(Some((up, new_right_id))) => {
                    proof {
                        let q = self.pager;
                        assert(some_split(now, q, parent_id, sep, right, up@));
                        let (lb, rb) = choose|lb: Seq<u8>, rb: Seq<u8>|
                            node_split(now, q, parent_id, sep, right, up@, lb, rb);
                        lemma_shape_split(
                            start,
                            now,
                            q,
                            path@,
                            d,
                            sep0,
                            right_child,
                            sep,
                            right,
                            up@,
                            lb,
                            rb,
                        );
                        assert forall|disk: Disk| #[trigger] sound(was, disk) implies parted(
                            was,
                            q,
                            disk,
                            key,
                            value,
                            path@,
                            (d - 1) as nat,
                            up@,
                            new_right_id,
                        ) by {
                            lemma_split(
                                was,
                                now,
                                q,
                                disk,
                                key,
                                value,
                                path@,
                                d,
                                sep,
                                right,
                                up@,
                                lb,
                                rb,
                            );
                        }
                    }
                    up_key = up;
                    up_child = new_right_id;
                },
            }
            depth -= 1;
        }
        let ghost now = self.pager;
        proof {
            lemma_shape_facts(start, now, path@, 0, sep0, right_child, up_key@, up_child);
        }
        let old_root: u32 = self.pager.meta.root;
        let old_height: u32 = self.pager.meta.height;
        let new_root_id: u32 = self.pager.allocate();
        let node: InternalPage = InternalPage::new_root(
            new_root_id,
            old_root,
            up_key.as_slice(),
            up_child,
        );
        let page: Page = node.into_page();
        let ghost nb = page@;
        self.pager.write_page(new_root_id, page);
        self.pager.set_root(new_root_id, old_height + 1);
        proof {
            let q = self.pager;
            lemma_shape_root(start, now, q, path@, sep0, right_child, up_key@, up_child, nb);
            assert forall|disk: Disk| #[trigger] sound(was, disk) implies self.sound(disk)
                && self.holds(disk) == held(was, disk).insert(key, value) by {
                lemma_new_root(was, now, q, disk, key, value, path@, up_key@, up_child, nb);
            }
        }
        Ok(())
    }
}

} // verus!
