//! Where the pages of a pager are.

use vstd::prelude::*;

use crate::bits::packed_len;
use crate::byte::u32_bytes;
use crate::db::{held, sound, wanted, Db};
use crate::error::{refused, Error, Result};
use crate::files::{all_ids, file_flags, file_page, Disk};
use crate::growth::{
    at_hand, grown, grows, leaf_takes, plain_path, room, splits, way, way_end, way_splits, widened,
};
use crate::internal::{child_index, child_of, internal_split_point, middle};
use crate::items::weight;
use crate::key::key_lt;
use crate::laws::{complete, same_pages};
use crate::layout::{
    entries, entries_size, free_end, free_start, has_key, lemma_rank, link, live, page_ok, sorted,
    upsert, Entry,
};
use crate::leaf::{leaf_middle, leaf_split_point};
use crate::meta::decodes;
use crate::page::put_fits;
use crate::pager::{base_opened, fresh_meta, marked, opened, FilePager, PageRequest};
use crate::tree_climb::with_child;
use crate::tree_read::{descend, Descent};

verus! {

/// A page is what was written to it since the last sync, or else what the file that answers for it
/// holds at its place. A file answers for the pages behind its base and for those that were copied
/// from it, and the base for all others.
pub proof fn law_page_at(p: FilePager, disk: Disk, id: u32)
    ensures
        p.tops(id) <==> id >= p.meta.base_offset || p.copied@[id as int],
        p.tops(id) && p.dirty@.contains_key(id) ==> p.page_at(disk, id) == Some(p.dirty@[id]@),
        p.tops(id) && !p.dirty@.contains_key(id) && disk[p.level as int].len() >= 8192 * id + 8192
            ==> p.page_at(disk, id) == Some(
            disk[p.level as int].subrange(8192 * id, 8192 * id + 8192),
        ),
        p.tops(id) && !p.dirty@.contains_key(id) && disk[p.level as int].len() < 8192 * id + 8192
            ==> p.page_at(disk, id) is None,
        !p.tops(id) && p.base is Some ==> p.page_at(disk, id) == p.base->0.page_at(disk, id),
        !p.tops(id) && p.base is None ==> p.page_at(disk, id) is None,
        p.pages(disk).contains_key(id) <==> p.page_at(disk, id) is Some,
        p.pages(disk).contains_key(id) ==> Some(p.pages(disk)[id]) == p.page_at(disk, id),
{
}

/// The pages in memory are those that were written or read, of the file that answers for them.
pub proof fn law_store(p: FilePager, id: u32)
    ensures
        p.tops(id) ==> (p.store().contains_key(id) <==> p.dirty@.contains_key(id)
            || p.clean@.contains_key(id)),
        p.tops(id) && p.dirty@.contains_key(id) ==> p.store()[id] == p.dirty@[id]@,
        p.tops(id) && !p.dirty@.contains_key(id) && p.clean@.contains_key(id) ==> p.store()[id]
            == p.clean@[id]@,
        !p.tops(id) && p.base is Some ==> (p.store().contains_key(id)
            <==> p.base->0.store().contains_key(id)),
        !p.tops(id) && p.base is Some && p.store().contains_key(id) ==> p.store()[id]
            == p.base->0.store()[id],
        !p.tops(id) && p.base is None ==> !p.store().contains_key(id),
        p.tops(id) ==> p.level_of(id) == p.level && p.resolves(id),
        !p.tops(id) && p.base is Some ==> p.level_of(id) == p.base->0.level_of(id) && p.resolves(id)
            == p.base->0.resolves(id),
        !p.tops(id) && p.base is None ==> !p.resolves(id),
{
}

/// A page that is asked for is one of the database's, is not in memory, and stands at its place in
/// the file that it is asked from.
pub proof fn law_wanted(p: FilePager, disk: Disk, m: PageRequest)
    requires
        p.wf(),
        wanted(p, disk, m),
    ensures
        1 <= m.id < p.meta.num_pages,
        !p.store().contains_key(m.id),
        m.level < disk.len(),
        disk[m.level as int].len() >= 8192 * m.id + 8192,
        p.resolves(m.id) ==> p.page_at(disk, m.id) == Some(
            disk[m.level as int].subrange(8192 * m.id, 8192 * m.id + 8192),
        ),
        sound(p, disk) ==> p.page_at(disk, m.id) == Some(
            disk[m.level as int].subrange(8192 * m.id, 8192 * m.id + 8192),
        ),
    decreases p,
{
    lemma_resolves(p, disk, m.id);
    if sound(p, disk) {
        assert(p.pages(disk).contains_key(m.id));
    }
    if !p.tops(m.id) {
        if let Some(b) = p.base {
            lemma_asked(*b, disk, m);
            assert(!b.store().contains_key(m.id));
        }
    } else {
        assert(!p.dirty@.contains_key(m.id)) by {
            if p.dirty@.contains_key(m.id) {
                assert(p.store().contains_key(m.id));
            }
        }
        assert(file_page(disk[m.level as int], m.id) =~= disk[m.level as int].subrange(
            8192 * m.id,
            8192 * m.id + 8192,
        ));
    }
}

/// A page that is there has a file that answers for it.
proof fn lemma_resolves(p: FilePager, disk: Disk, id: u32)
    ensures
        p.page_at(disk, id) is Some ==> p.resolves(id),
    decreases p,
{
    if !p.tops(id) {
        if let Some(b) = p.base {
            lemma_resolves(*b, disk, id);
        }
    }
}

proof fn lemma_asked(p: FilePager, disk: Disk, m: PageRequest)
    requires
        p.wf(),
        p.dirty@ == Map::<u32, crate::page::Page>::empty(),
        m.level == p.level_of(m.id),
        disk[m.level as int].len() >= 8192 * m.id + 8192,
    ensures
        p.resolves(m.id) ==> p.page_at(disk, m.id) == Some(
            disk[m.level as int].subrange(8192 * m.id, 8192 * m.id + 8192),
        ),
    decreases p,
{
    if !p.tops(m.id) {
        if let Some(b) = p.base {
            lemma_asked(*b, disk, m);
        }
    }
}

/// A pager that was just opened has nothing written, says what the meta page of its file says, and
/// has for each page of its base the bit behind the last page of its file.
pub proof fn law_opened(p: FilePager, disk: Disk, id: u32)
    requires
        opened(p, disk),
    ensures
        p.dirty@.dom() == Set::<u32>::empty(),
        p.level < disk.len(),
        disk[p.level as int].len() >= 8192,
        decodes(disk[p.level as int].take(8192), p.meta@),
        p.base matches Some(b) ==> opened(*b, disk) && b.level + 1 == p.level,
        p.base is None ==> p.level == 0,
        p.base is Some && id < p.meta.base_offset && disk[p.level as int].len() > 8192
            * p.meta.num_pages + (p.meta.base_offset + 7) / 8 ==> (p.copied@[id as int]
            <==> disk[p.level as int][8192 * p.meta.num_pages + id / 8] & (1u8 << ((id % 8) as u8))
            != 0),
        p.base is None && id < p.meta.base_offset ==> !p.copied@[id as int],
{
    let file = disk[p.level as int];
    assert(p.dirty@.dom() =~= Set::<u32>::empty());
    assert(file_page(file, 0) =~= file.take(8192));
    if p.base is Some && id < p.meta.base_offset && file.len() > 8192 * p.meta.num_pages + (
    p.meta.base_offset + 7) / 8 {
        let len = packed_len(p.meta.base_offset as int);
        let flags = file_flags(file, p.meta.num_pages, len);
        assert(flags[(id / 8) as int] == file[8192 * p.meta.num_pages + id / 8]);
    }
}

/// A fresh database has the meta page and an empty leaf, which is its root.
pub proof fn law_fresh_meta()
    ensures
        fresh_meta().root == 1,
        fresh_meta().num_pages == 2,
        fresh_meta().height == 1,
        fresh_meta().base_offset == 0,
        fresh_meta().base_path is None,
        all_ids() == 4294967296,
{
}

/// A page of the base that is written is marked as copied, and no other mark changes.
pub proof fn law_marked(p: FilePager, id: u32, x: int)
    requires
        p.wf(),
        0 <= x < p.meta.base_offset,
    ensures
        marked(p, id).len() == p.meta.base_offset,
        marked(p, id)[x] == (p.copied@[x] || x == id),
{
}

/// An operation is refused for a reason where it returns just that error.
pub proof fn law_refused<T>(r: Result<T>, e: Error)
    ensures
        refused(r, e) <==> r == Err::<T, Error>(e),
{
}

/// A well-formed database has at least one page, every page is there, its base covers no more
/// than its pages, and its root is one of them.
pub proof fn law_sound(p: FilePager, disk: Disk, id: u32)
    requires
        sound(p, disk),
    ensures
        p.wf(),
        p.meta.num_pages >= 1,
        p.meta.base_offset <= p.meta.num_pages,
        1 <= id < p.meta.num_pages ==> p.page_at(disk, id) is Some,
        p.meta.height > 0 ==> 1 <= p.meta.root < p.meta.num_pages,
{
    if 1 <= id < p.meta.num_pages {
        assert(p.pages(disk).contains_key(id));
    }
    if p.meta.height > 0 {
        assert(crate::tree::owns(
            p.pages(disk),
            p.meta.root,
            p.meta.height as nat,
            p.meta.root,
        ));
    }
}

/// The child for a key is the one behind the last separator that does not come behind the key.
pub proof fn law_child_between(leftmost: u32, es: Seq<Entry>, k: Seq<u8>)
    requires
        sorted(es),
    ensures
        ({
            let i = child_index(es, k);
            &&& 0 <= i <= es.len()
            &&& forall|j: int|
                0 <= j < i ==> #[trigger] es[j].0 == k || key_lt(es[j].0, k)
            &&& forall|j: int| i <= j < es.len() ==> key_lt(k, #[trigger] es[j].0)
            &&& i == 0 ==> child_of(leftmost, es, i) == leftmost
            &&& i > 0 && es[i - 1].1.len() == 4 ==> child_of(leftmost, es, i) == es[i - 1].1[0] + 256
                * es[i - 1].1[1] + 65536 * es[i - 1].1[2] + 16777216 * es[i - 1].1[3]
        }),
{
    broadcast use crate::key::group_key_order;

    lemma_rank(es, k);
    let i = child_index(es, k);
    assert forall|j: int| i <= j < es.len() implies key_lt(k, #[trigger] es[j].0) by {
        crate::key::law_key_total(es[j].0, k);
        if has_key(es, k) && j > i - 1 {
            assert(key_lt(es[i - 1].0, es[j].0));
        }
        if es[j].0 == k {
            assert(has_key(es, k));
        }
    }
}

// Growth.

/// How an insertion that went through changed the tree. A tree without pages gets a root. A leaf
/// that takes the entry changes nothing else. A leaf that does not gets one new page, and so does
/// each page on the way up whose neighbour below was split and that has no room; where all of them
/// were split, one more page is the root above the old one.
pub proof fn law_growth(was: FilePager, now: FilePager, key: Seq<u8>, value: Seq<u8>)
    requires
        widened(was, now, key, value),
        was.meta.num_pages + was.meta.height + 1 <= u32::MAX,
    ensures
        was.meta.height == 0 ==> now.meta.root == was.meta.num_pages && now.meta.num_pages
            == was.meta.num_pages + 1 && now.meta.height == 1,
        was.meta.height > 0 && leaf_takes(was, key, value) ==> now.meta == was.meta,
        was.meta.height > 0 && !leaf_takes(was, key, value) ==> {
            let taken = now.meta.num_pages - was.meta.num_pages;
            ||| {
                &&& 1 <= taken < was.meta.height
                &&& now.meta.root == was.meta.root
                &&& now.meta.height == was.meta.height
            }
            ||| {
                &&& taken == was.meta.height + 1
                &&& now.meta.root == now.meta.num_pages - 1
                &&& now.meta.height == was.meta.height + 1
                &&& now.store().contains_key(now.meta.root)
                &&& link(now.store()[now.meta.root]) == was.meta.root
            }
        },
        was.meta.height > 0 && !leaf_takes(was, key, value) && plain_path(
            was,
            way(was, key).push(way_end(was, key)),
        ) ==> now.meta.num_pages - was.meta.num_pages == way_splits(was, key, value) + if way_splits(
            was,
            key,
            value,
        ) + 1 < was.meta.height {
            1int
        } else {
            2int
        },
{
    if was.meta.height > 0 && !leaf_takes(was, key, value) {
        let after = crate::meta::Meta {
            num_pages: (was.meta.num_pages + 1) as u32,
            ..was.meta
        };
        let len = (was.meta.height - 1) as nat;
        let k = choose|k: nat| k <= len && #[trigger] grown(after, now, k, len);
        assert(grown(after, now, k, len));
        law_splits(
            was,
            way(was, key),
            way(was, key).len(),
            upsert(live(was.store()[way_end(was, key)]), key, value)[leaf_middle(
                upsert(live(was.store()[way_end(was, key)]), key, value),
            )].0,
            was.meta.num_pages,
            was.meta.num_pages + 1,
        );
    }
}

/// A climb stops at the first page that has room for the separator, and splits every page before
/// it: no more pages than there are on the way.
pub proof fn law_splits(
    p: FilePager,
    path: Seq<u32>,
    depth: nat,
    sep: Seq<u8>,
    right: u32,
    next: int,
)
    requires
        depth <= path.len(),
    ensures
        splits(p, path, depth, sep, right, next) <= depth,
        depth > 0 && put_fits(
            p.store()[path[depth - 1]],
            p.percent_at(path[depth - 1]) as int,
            sep,
            u32_bytes(right),
        ) ==> splits(p, path, depth, sep, right, next) == 0,
        depth > 0 && !put_fits(
            p.store()[path[depth - 1]],
            p.percent_at(path[depth - 1]) as int,
            sep,
            u32_bytes(right),
        ) ==> splits(p, path, depth, sep, right, next) > 0,
    decreases depth,
{
    if depth > 0 {
        let b = p.store()[path[depth - 1]];
        let all = with_child(b, sep, right);
        law_splits(
            p,
            path,
            (depth - 1) as nat,
            all[middle(all)].0,
            next as u32,
            next + 1,
        );
    }
}

/// A well-formed leaf with room for the entry and its slot takes it. One with two or more entries
/// takes none that does not fit beside them in a page.
pub proof fn law_leaf_room(p: FilePager, key: Seq<u8>, value: Seq<u8>, l: u32)
    requires
        descend(p.store(), p.meta.root, p.meta.height as nat, Some(key)) == Descent::Leaf(l),
        page_ok(p.store()[l]),
    ensures
        free_end(p.store()[l]) - free_start(p.store()[l]) >= 7 + key.len() + value.len()
            ==> leaf_takes(p, key, value),
        !has_key(entries(p.store()[l]), key) && entries(p.store()[l]).len() > 0 && entries_size(
            entries(p.store()[l]),
        ) + 5 + key.len() + value.len() > 8172 - 2 * (entries(p.store()[l]).len() + 1)
            ==> !leaf_takes(p, key, value),
{
    let es = entries(p.store()[l]);
    lemma_rank(es, key);
}

/// Where a leaf and an internal page are split: the half that stays has just reached half of all
/// bytes with its last entry, and of an internal page the entry that reaches it moves up.
pub proof fn law_split_in_half(es: Seq<Entry>, m: int)
    ensures
        leaf_split_point(es, m) ==> {
            &&& 1 <= m < es.len()
            &&& m > 1 ==> 2 * weight(es.take(m - 1)) < weight(es)
            &&& m < es.len() - 1 ==> 2 * weight(es.take(m)) >= weight(es)
        },
        internal_split_point(es, m) ==> {
            &&& 0 <= m < es.len()
            &&& m > 0 ==> 2 * weight(es.take(m)) < weight(es)
            &&& 2 * weight(es.take(m + 1)) >= weight(es)
        },
{
}

/// Pages that were in memory stay there through an insertion or a deletion, and new ones are
/// there too.
pub proof fn law_at_hand(was: FilePager, now: FilePager, x: u32)
    requires
        at_hand(was, now),
    ensures
        was.store().contains_key(x) ==> now.store().contains_key(x),
        was.meta.num_pages <= x < now.meta.num_pages ==> now.store().contains_key(x),
{
}

/// There is room for an insertion where a leaf, each page on the way and a root can be taken.
pub proof fn law_room(p: FilePager)
    ensures
        room(p) <==> p.meta.num_pages + p.meta.height + 1 <= 4294967295,
{
}

/// An insertion takes a new page for the first leaf of a tree without pages. It takes none where
/// the leaf takes the entry, nor where a page is missing on the way.
pub proof fn law_grows(p: FilePager, key: Seq<u8>, value: Seq<u8>)
    ensures
        p.meta.height == 0 ==> grows(p, key, value),
        p.meta.height > 0 && leaf_takes(p, key, value) ==> !grows(p, key, value),
        p.meta.height > 0 && !(descend(p.store(), p.meta.root, p.meta.height as nat, Some(key))
            is Leaf) ==> !grows(p, key, value),
        p.meta.height > 0 ==> (descend(p.store(), p.meta.root, p.meta.height as nat, Some(key))
            matches Descent::Leaf(l) ==> (!p.store().contains_key(l) ==> !grows(p, key, value))),
{
}

// What is assumed of the files.

/// A well-formed database is complete, whatever it holds.
pub proof fn law_sound_is_complete(p: FilePager, disk: Disk)
    requires
        sound(p, disk),
    ensures
        complete(p, disk),
{
}

/// A database is complete where every page is there.
pub proof fn law_complete(p: FilePager, disk: Disk)
    ensures
        complete(p, disk) <==> {
            &&& p.wf()
            &&& p.faithful(disk)
            &&& p.meta.num_pages >= 1
            &&& p.base is None ==> p.meta.base_offset == 0
            &&& forall|id: u32|
                1 <= id < p.meta.num_pages ==> (#[trigger] p.page_at(disk, id)) is Some
        },
{
    if complete(p, disk) {
        assert forall|id: u32| 1 <= id < p.meta.num_pages implies (#[trigger] p.page_at(
            disk,
            id,
        )) is Some by {
            assert(p.pages(disk).contains_key(id));
        }
    }
    if forall|id: u32| 1 <= id < p.meta.num_pages ==> (#[trigger] p.page_at(disk, id)) is Some {
        assert forall|id: u32| 1 <= id < p.meta.num_pages implies #[trigger] p.pages(
            disk,
        ).contains_key(id) by {
            assert(p.page_at(disk, id) is Some);
        }
    }
}

/// What is kept of the files from one operation to the next: the pages that were read are those in
/// the files, the base is as it was opened, and pages stay the same.
pub proof fn law_file_relations(p: FilePager, disk: Disk, q: FilePager, d: Disk, id: u32)
    ensures
        p.base is None ==> base_opened(p, disk),
        p.base matches Some(b) ==> (base_opened(p, disk) <==> opened(*b, disk)),
        same_pages(p, disk, q, d) && 1 <= id < p.meta.num_pages ==> q.page_at(d, id) == p.page_at(
            disk,
            id,
        ),
        p.faithful(disk) && p.clean@.contains_key(id) ==> disk[p.level as int].len() >= 8192 * id
            + 8192 && p.clean@[id]@ == disk[p.level as int].subrange(8192 * id, 8192 * id + 8192),
        p.faithful(disk) ==> p.level < disk.len(),
        p.base matches Some(b) ==> (p.faithful(disk) ==> b.faithful(disk)),
{
    if p.faithful(disk) && p.clean@.contains_key(id) {
        assert(file_page(disk[p.level as int], id) =~= disk[p.level as int].subrange(
            8192 * id,
            8192 * id + 8192,
        ));
    }
}

/// A pager that has read nothing, with a complete chain of files below it, is faithful to them.
pub proof fn law_nothing_read(p: FilePager, disk: Disk)
    requires
        p.clean@ == Map::<u32, crate::page::Page>::empty(),
        p.level < disk.len(),
        p.base matches Some(b) ==> b.faithful(disk),
    ensures
        p.faithful(disk),
{
}

/// A database is its pager: what is said of the one is said of the other.
pub proof fn law_database(db: Db, disk: Disk, id: u32)
    ensures
        db.wf() <==> db.pager.wf(),
        db.sound(disk) <==> sound(db.pager, disk),
        db.holds(disk) == held(db.pager, disk),
        db.request(id).id == id,
        db.request(id).level == db.pager.level_of(id),
{
}

/// A pager is in order where it has a mark for each page of its base, and its base, in which
/// nothing is written, is in order and stands one file below.
pub proof fn law_in_order(p: FilePager)
    ensures
        p.wf() <==> {
            &&& p.copied@.len() == p.meta.base_offset
            &&& p.base is None ==> p.level == 0
            &&& p.base matches Some(b) ==> b.wf() && b.dirty@ == Map::<
                u32,
                crate::page::Page,
            >::empty() && p.level == b.level + 1
        },
{
}

} // verus!
