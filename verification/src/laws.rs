//! What holds across several operations and the files they leave behind.

use vstd::prelude::*;

use crate::bits::{law_unpack_pack, packed, packed_len, unpacked};
use crate::climb::lemma_leaf_spot;
use crate::db::{held, lemma_listed, sound, Scan};
use crate::files::{
    all_ids, apply_all, closing, file_flags, file_page, gather, has_page, lemma_apply_concat,
    lemma_closing, lemma_closing_same, lemma_gather, lemma_gather_same, only, op_bytes, page_ops,
    writes_page, written, Disk, Op,
};
use crate::items::items_view;
use crate::key::{key_lt, law_empty_key_first};
use crate::layout::{
    empty_page, entries, lemma_page_ok, lemma_rank, lookup, rank, reading, seen, sorted, Entry,
    PAGE_SIZE,
};
use crate::leaf::{entry_fits, leaf_ok};
use crate::meta::{encoded, law_meta_round_trip, path_fits, path_named};
use crate::pager::{base_opened, fresh_meta, opened, FilePager};
use crate::plan::{
    after_sync, dirty_op, every_op, flag_bytes, flush_ops, resident_op, snapshot_ops, standalone,
    sync_ops,
};
use crate::tree::{top, Contents};
use crate::tree_climb::lemma_root_leaf;
use crate::tree_leaves::{leaf_for, leaves, lemma_leaf_for, lemma_leaves, parts_at};
use crate::tree_proof::{lemma_owned_here, lemma_same_tree, same_at};
use crate::tree_read::{
    descend, in_range, lemma_descend, lemma_scanned, scanned, sought, stop, trail, value_of,
    Descent, Run, Sought,
};

verus! {

/// Two pagers that were opened from the same files have the same meta page and pages.
pub proof fn lemma_opened_same(p: FilePager, q: FilePager, disk: Disk)
    requires
        opened(p, disk),
        opened(q, disk),
        p.level == q.level,
    ensures
        p.meta@ == q.meta@,
        p.copied@ == q.copied@,
        forall|id: u32| #[trigger] p.page_at(disk, id) == q.page_at(disk, id),
    decreases p,
{
    assert(p.meta@ == q.meta@);
    match p.base {
        Some(b) => {
            assert(q.base is Some);
            let c = q.base->0;
            lemma_opened_same(*b, *c, disk);
            assert forall|id: u32| #[trigger] p.page_at(disk, id) == q.page_at(disk, id) by {
                assert(p.tops(id) == q.tops(id));
                assert(b.page_at(disk, id) == c.page_at(disk, id));
            }
        },
        None => {
            assert(q.base is None);
            assert forall|id: u32| #[trigger] p.page_at(disk, id) == q.page_at(disk, id) by {
                assert(p.tops(id) == q.tops(id));
            }
        },
    }
}

/// Files above a pager's own have no part in its pages.
pub proof fn lemma_lower(p: FilePager, disk: Disk, d: Disk)
    requires
        p.wf(),
        p.level < disk.len(),
        p.level < d.len(),
        forall|j: int| 0 <= j <= p.level ==> #[trigger] d[j] == disk[j],
    ensures
        forall|id: u32| #[trigger] p.page_at(d, id) == p.page_at(disk, id),
        p.faithful(disk) ==> p.faithful(d),
        opened(p, disk) ==> opened(p, d),
    decreases p,
{
    match p.base {
        Some(b) => {
            lemma_lower(*b, disk, d);
            assert forall|id: u32| #[trigger] p.page_at(d, id) == p.page_at(disk, id) by {
                assert(b.page_at(d, id) == b.page_at(disk, id));
            }
        },
        None => {},
    }
}

/// The operation that a flush or a snapshot has for a page writes the bytes that are read as
/// that page: those in memory if it was written, or else those of the file that holds it. The
/// file answers for its own and its copied pages, and its base for all others.
pub proof fn law_raw_op(p: FilePager, disk: Disk, id: u32)
    requires
        p.wf(),
        p.faithful(disk),
        p.page_at(disk, id) is Some,
    ensures
        writes_page(p.raw_op(id), id, disk),
        op_bytes(p.raw_op(id), disk) == p.page_at(disk, id)->0,
        p.store().contains_key(id) ==> op_bytes(p.raw_op(id), disk) == p.store()[id],
        p.tops(id) <==> id >= p.meta.base_offset || p.copied@[id as int],
        !p.tops(id) ==> p.base is Some && p.raw_op(id) == p.base->0.raw_op(id),
    decreases p,
{
    p.lemma_store(disk);
    if p.tops(id) {
        if p.dirty@.contains_key(id) {
            p.dirty@[id].lemma_len();
        }
    } else {
        match p.base {
            Some(b) => law_raw_op(*b, disk, id),
            None => {},
        }
    }
}

/// When the files are `disk`, every page of the database is there. Nothing is said of what the
/// pages hold.
pub open spec fn complete(p: FilePager, disk: Disk) -> bool {
    &&& p.wf()
    &&& p.faithful(disk)
    &&& p.meta.num_pages >= 1
    &&& p.base is None ==> p.meta.base_offset == 0
    &&& p.whole(disk)
}

/// Every page of the database is in `q` on the files `d` what it is in `p` on the files `disk`.
pub open spec fn same_pages(p: FilePager, disk: Disk, q: FilePager, d: Disk) -> bool {
    forall|id: u32|
        1 <= id < p.meta.num_pages ==> #[trigger] q.page_at(d, id) == p.page_at(disk, id)
}

/// What the files `d` hold once those pages of the pager's own that were there in `disk`, its
/// flags and its meta page have been written.
pub open spec fn brought(p: FilePager, disk: Disk, d: Disk) -> bool {
    let file = d[p.level as int];
    &&& only(p.level as int, disk, d)
    &&& has_page(file, 0)
    &&& file_page(file, 0) == encoded(p.meta@)
    &&& p.meta.base_offset > 0 && p.base is Some ==> {
        &&& file.len() >= p.meta.num_pages * PAGE_SIZE + packed_len(p.meta.base_offset as int)
        &&& file_flags(file, p.meta.num_pages, packed_len(p.meta.base_offset as int)) == packed(
            p.copied@,
        )
    }
    &&& forall|id: u32|
        1 <= id < p.meta.num_pages && p.tops(id) && (#[trigger] p.page_at(disk, id)) is Some
            ==> has_page(file, id) && file_page(file, id) == p.page_at(disk, id)->0
}

/// Pages, flags and meta page are brought to the file.
#[verifier::spinoff_prover]
#[verifier::rlimit(60)]
proof fn lemma_brought(
    p: FilePager,
    f: spec_fn(u32) -> Seq<Op>,
    n: nat,
    sync: Op,
    disk: Disk,
)
    requires
        p.wf(),
        p.faithful(disk),
        p.meta.num_pages >= 1,
        path_fits(p.meta@.base_path),
        n <= all_ids(),
        sync == Op::SyncData || sync == Op::SyncAll,
        page_ops(f, n, disk),
        forall|id: u32|
            1 <= id < p.meta.num_pages && p.tops(id) && p.page_at(disk, id) is Some ==> {
                ||| id < n && (#[trigger] f(id)).len() == 1 && op_bytes(f(id)[0], disk)
                    == p.page_at(disk, id)->0
                ||| f(id).len() == 0 && !p.dirty@.contains_key(id)
            },
    ensures
        brought(
            p,
            disk,
            apply_all(
                gather(f, n) + closing(flag_bytes(p), p.meta.num_pages, encoded(p.meta@), sync),
                p.level as int,
                disk,
            ),
        ),
{
    let target = p.level as int;
    let flags = flag_bytes(p);
    let end = closing(flags, p.meta.num_pages, encoded(p.meta@), sync);
    let d1 = apply_all(gather(f, n), target, disk);
    let d = apply_all(gather(f, n) + end, target, disk);
    lemma_gather(f, n, target, disk);
    lemma_apply_concat(gather(f, n), end, target, disk);
    assert(encoded(p.meta@).len() == PAGE_SIZE);
    lemma_closing(flags, p.meta.num_pages, encoded(p.meta@), sync, target, d1);
    assert forall|id: u32|
        1 <= id < p.meta.num_pages && p.tops(id) && (#[trigger] p.page_at(disk, id)) is Some implies
        has_page(d[target], id) && file_page(d[target], id) == p.page_at(disk, id)->0 by {
        let ops = f(id);
        assert(has_page(d1[target], id));
        if ops.len() == 0 {
            assert(has_page(disk[target], id));
        }
        assert(file_page(d1[target], id) == p.page_at(disk, id)->0);
    }
}

/// A sync brings the file up to date.
pub proof fn lemma_sync_brought(p: FilePager, disk: Disk)
    requires
        p.wf(),
        p.faithful(disk),
        p.meta.num_pages >= 1,
        path_fits(p.meta@.base_path),
    ensures
        brought(p, disk, apply_all(sync_ops(p), p.level as int, disk)),
{
    let f = dirty_op(p);
    assert(page_ops(f, all_ids(), disk)) by {
        assert forall|id: u32| id < all_ids() implies (#[trigger] f(id)).len() == 0 || f(id).len()
            == 1 && writes_page(f(id)[0], id, disk) by {
            if p.dirty@.contains_key(id) {
                p.dirty@[id].lemma_len();
            }
        }
    }
    lemma_brought(p, f, all_ids(), Op::SyncData, disk);
}

/// A flush brings the file up to date.
pub proof fn lemma_flush_brought(p: FilePager, disk: Disk)
    requires
        p.wf(),
        p.faithful(disk),
        p.meta.num_pages >= 1,
        path_fits(p.meta@.base_path),
        p.whole(disk),
    ensures
        brought(p, disk, apply_all(flush_ops(p), p.level as int, disk)),
{
    let f = resident_op(p);
    let n = p.meta.num_pages as nat;
    assert forall|id: u32| 1 <= id < n implies writes_page(#[trigger] p.raw_op(id), id, disk)
        && op_bytes(p.raw_op(id), disk) == p.page_at(disk, id)->0 by {
        assert(p.pages(disk).contains_key(id));
        law_raw_op(p, disk, id);
    }
    lemma_brought(p, f, n, Op::SyncAll, disk);
}

/// The flags in the file are those of the pager.
proof fn lemma_flags_back(p: FilePager, d: Disk)
    requires
        p.wf(),
        p.base is None ==> p.meta.base_offset == 0,
        p.meta.base_offset > 0 && p.base is Some ==> file_flags(
            d[p.level as int],
            p.meta.num_pages,
            packed_len(p.meta.base_offset as int),
        ) == packed(p.copied@),
    ensures
        p.base is Some ==> p.copied@ == unpacked(
            file_flags(
                d[p.level as int],
                p.meta.num_pages,
                packed_len(p.meta.base_offset as int),
            ),
            p.meta.base_offset as nat,
        ),
        p.base is None ==> p.copied@ == unpacked(Seq::empty(), p.meta.base_offset as nat),
{
    if p.meta.base_offset > 0 {
        law_unpack_pack(p.copied@, Seq::empty());
        assert(packed(p.copied@) + Seq::<u8>::empty() =~= packed(p.copied@));
    } else {
        assert(p.copied@ =~= unpacked(Seq::empty(), 0));
        let flags = file_flags(d[p.level as int], p.meta.num_pages, 0);
        assert(p.copied@ =~= unpacked(flags, 0));
    }
}

/// Where all pages are the same, the tree is the same.
proof fn lemma_kept(p: FilePager, disk: Disk, q: FilePager, d: Disk)
    requires
        complete(p, disk),
        q.wf(),
        q.faithful(d),
        q.base is None ==> q.meta.base_offset == 0,
        q.meta.base_offset == 0 || q.meta.base_offset == p.meta.base_offset,
        q.meta.root == p.meta.root,
        q.meta.height == p.meta.height,
        q.meta.num_pages == p.meta.num_pages,
        same_pages(p, disk, q, d),
    ensures
        complete(q, d),
        sound(p, disk) ==> sound(q, d) && held(q, d) == held(p, disk),
{
    let t = p.pages(disk);
    let u = q.pages(d);
    assert forall|x: u32| 1 <= x < p.meta.num_pages implies #[trigger] same_at(t, u, x)
        && u.contains_key(x) by {
        assert(t.contains_key(x));
        assert(q.page_at(d, x) == p.page_at(disk, x));
    }
    assert forall|x: u32| 1 <= x < q.meta.num_pages implies #[trigger] u.contains_key(x) by {
        assert(same_at(t, u, x));
    }
    if sound(p, disk) {
        lemma_same_tree(t, u, p.meta.root, p.meta.height as nat, p.meta.num_pages as int);
    }
}

/// Once the operations were carried out and the pager told so, it has the pages it had.
proof fn lemma_after(p: FilePager, q: FilePager, disk: Disk, d: Disk)
    requires
        complete(p, disk),
        q.wf(),
        after_sync(p, q),
        brought(p, disk, d),
    ensures
        complete(q, d),
        same_pages(p, disk, q, d),
        sound(p, disk) ==> sound(q, d) && held(q, d) == held(p, disk),
        base_opened(p, disk) && path_fits(p.meta@.base_path) && path_named(p.meta@.base_path)
            ==> opened(q, d),
{
    match p.base {
        Some(b) => lemma_lower(*b, disk, d),
        None => {},
    }
    if base_opened(p, disk) && path_fits(p.meta@.base_path) && path_named(p.meta@.base_path) {
        law_meta_round_trip(p.meta@);
        lemma_flags_back(p, d);
    }
    assert forall|id: u32| 1 <= id < p.meta.num_pages implies #[trigger] q.page_at(d, id)
        == p.page_at(disk, id) by {
        assert(p.pages(disk).contains_key(id));
        assert(p.page_at(disk, id) is Some);
        assert(q.tops(id) == p.tops(id));
        if !p.tops(id) {
            assert(p.base is Some);
            assert(p.base->0.page_at(d, id) == p.base->0.page_at(disk, id));
        }
    }
    lemma_kept(p, disk, q, d);
}

/// A pager that is opened from the files has the pages of the one that brought them there.
#[verifier::spinoff_prover]
#[verifier::rlimit(60)]
proof fn lemma_reopened(p: FilePager, r: FilePager, disk: Disk, d: Disk)
    requires
        complete(p, disk),
        path_fits(p.meta@.base_path),
        path_named(p.meta@.base_path),
        base_opened(p, disk),
        brought(p, disk, d),
        opened(r, d),
        r.level == p.level,
    ensures
        r.meta@ == p.meta@,
        same_pages(p, disk, r, d),
        r.faithful(d) ==> complete(r, d),
        r.faithful(d) && sound(p, disk) ==> sound(r, d) && held(r, d) == held(p, disk),
{
    law_meta_round_trip(p.meta@);
    assert(r.meta@ == p.meta@);
    assert(r.base is Some <==> p.base is Some);
    lemma_flags_back(p, d);
    assert(r.copied@ == p.copied@);
    match p.base {
        Some(b) => {
            lemma_lower(*b, disk, d);
            assert(r.base is Some);
            lemma_opened_same(*b, *r.base->0, d);
        },
        None => {},
    }
    assert forall|id: u32| 1 <= id < p.meta.num_pages implies #[trigger] r.page_at(d, id)
        == p.page_at(disk, id) by {
        assert(p.pages(disk).contains_key(id));
        assert(p.page_at(disk, id) is Some);
        assert(r.tops(id) == p.tops(id));
        if !p.tops(id) {
            assert(p.base is Some);
            assert(p.base->0.page_at(d, id) == p.base->0.page_at(disk, id));
            assert(p.base->0.page_at(d, id) == r.base->0.page_at(d, id));
        }
    }
    if r.faithful(d) {
        lemma_kept(p, disk, r, d);
    }
}

/// A sync changes its own file only, and the database has the same pages and, where they
/// form a tree, holds the same afterwards. Its handle is then as if it was just opened.
pub proof fn law_sync(p: FilePager, q: FilePager, disk: Disk)
    requires
        complete(p, disk),
        path_fits(p.meta@.base_path),
        q.wf(),
        after_sync(p, q),
    ensures
        only(p.level as int, disk, apply_all(sync_ops(p), p.level as int, disk)),
        complete(q, apply_all(sync_ops(p), p.level as int, disk)),
        sound(p, disk) ==> sound(q, apply_all(sync_ops(p), p.level as int, disk)) && held(
            q,
            apply_all(sync_ops(p), p.level as int, disk),
        ) == held(p, disk),
        same_pages(p, disk, q, apply_all(sync_ops(p), p.level as int, disk)),
        base_opened(p, disk) && path_named(p.meta@.base_path) ==> opened(
            q,
            apply_all(sync_ops(p), p.level as int, disk),
        ),
{
    lemma_sync_brought(p, disk);
    lemma_after(p, q, disk, apply_all(sync_ops(p), p.level as int, disk));
}

/// A database that is opened after a sync, be it an overlay or not, has the meta page and the
/// pages that were synced and, where they form a tree, holds what was synced.
pub proof fn law_sync_reopen(p: FilePager, r: FilePager, disk: Disk)
    requires
        complete(p, disk),
        path_fits(p.meta@.base_path),
        path_named(p.meta@.base_path),
        base_opened(p, disk),
        opened(r, apply_all(sync_ops(p), p.level as int, disk)),
        r.level == p.level,
    ensures
        r.meta@ == p.meta@,
        r.faithful(apply_all(sync_ops(p), p.level as int, disk)) ==> complete(
            r,
            apply_all(sync_ops(p), p.level as int, disk),
        ),
        r.faithful(apply_all(sync_ops(p), p.level as int, disk)) && sound(p, disk) ==> sound(
            r,
            apply_all(sync_ops(p), p.level as int, disk),
        ) && held(r, apply_all(sync_ops(p), p.level as int, disk)) == held(p, disk),
        same_pages(p, disk, r, apply_all(sync_ops(p), p.level as int, disk)),
{
    lemma_sync_brought(p, disk);
    lemma_reopened(p, r, disk, apply_all(sync_ops(p), p.level as int, disk));
}

/// A flush changes its own file only, and the database has the same pages and, where they
/// form a tree, holds the same afterwards. Its handle is then as if it was just opened.
pub proof fn law_flush(p: FilePager, q: FilePager, disk: Disk)
    requires
        complete(p, disk),
        path_fits(p.meta@.base_path),
        q.wf(),
        after_sync(p, q),
    ensures
        only(p.level as int, disk, apply_all(flush_ops(p), p.level as int, disk)),
        complete(q, apply_all(flush_ops(p), p.level as int, disk)),
        sound(p, disk) ==> sound(q, apply_all(flush_ops(p), p.level as int, disk)) && held(
            q,
            apply_all(flush_ops(p), p.level as int, disk),
        ) == held(p, disk),
        same_pages(p, disk, q, apply_all(flush_ops(p), p.level as int, disk)),
        base_opened(p, disk) && path_named(p.meta@.base_path) ==> opened(
            q,
            apply_all(flush_ops(p), p.level as int, disk),
        ),
{
    lemma_flush_brought(p, disk);
    lemma_after(p, q, disk, apply_all(flush_ops(p), p.level as int, disk));
}

/// A database that is opened after a flush, be it an overlay or not, has the meta page and the
/// pages that were flushed and, where they form a tree, holds what was flushed.
pub proof fn law_flush_reopen(p: FilePager, r: FilePager, disk: Disk)
    requires
        complete(p, disk),
        path_fits(p.meta@.base_path),
        path_named(p.meta@.base_path),
        base_opened(p, disk),
        opened(r, apply_all(flush_ops(p), p.level as int, disk)),
        r.level == p.level,
    ensures
        r.meta@ == p.meta@,
        r.faithful(apply_all(flush_ops(p), p.level as int, disk)) ==> complete(
            r,
            apply_all(flush_ops(p), p.level as int, disk),
        ),
        r.faithful(apply_all(flush_ops(p), p.level as int, disk)) && sound(p, disk) ==> sound(
            r,
            apply_all(flush_ops(p), p.level as int, disk),
        ) && held(r, apply_all(flush_ops(p), p.level as int, disk)) == held(p, disk),
        same_pages(p, disk, r, apply_all(flush_ops(p), p.level as int, disk)),
{
    lemma_flush_brought(p, disk);
    lemma_reopened(p, r, disk, apply_all(flush_ops(p), p.level as int, disk));
}

/// What an overlay writes leaves its base as it was.
pub proof fn law_base_untouched(p: FilePager, disk: Disk, d: Disk)
    requires
        p.wf(),
        p.base matches Some(b) && sound(*b, disk),
        p.level < disk.len(),
        only(p.level as int, disk, d),
    ensures
        sound(*(p.base->0), d),
        held(*(p.base->0), d) == held(*(p.base->0), disk),
{
    let b = p.base->0;
    lemma_lower(*b, disk, d);
    assert(b.pages(d) =~= b.pages(disk));
}

/// The file that a full snapshot writes. The new file stands behind all others.
pub open spec fn snapshot_file(p: FilePager, disk: Disk) -> Seq<u8> {
    apply_all(snapshot_ops(p), disk.len() as int, disk.push(Seq::empty()))[disk.len() as int]
}

/// The end of a full snapshot puts the meta page in front of the pages.
proof fn lemma_snapshot_end(meta: Seq<u8>, target: int, disk: Disk)
    requires
        0 <= target < disk.len(),
        meta.len() == PAGE_SIZE,
    ensures
        ({
            let end = seq![Op::Write { offset: 0, bytes: meta }, Op::SyncAll];
            apply_all(end, target, disk) == disk.update(target, written(disk[target], 0, meta))
        }),
{
    let w = Op::Write { offset: 0, bytes: meta };
    let end = seq![w, Op::SyncAll];
    assert(end.drop_last() =~= seq![w]);
    assert(seq![w].drop_last() =~= Seq::<Op>::empty());
    reveal_with_fuel(apply_all, 3);
}

/// What is in the file that a full snapshot writes, and what is left as it is.
#[verifier::spinoff_prover]
#[verifier::rlimit(60)]
pub proof fn lemma_snapshot_file(p: FilePager, disk: Disk)
    requires
        complete(p, disk),
    ensures
        only(
            disk.len() as int,
            disk.push(Seq::empty()),
            apply_all(snapshot_ops(p), disk.len() as int, disk.push(Seq::empty())),
        ),
        has_page(snapshot_file(p, disk), 0),
        file_page(snapshot_file(p, disk), 0) == encoded(standalone(p.meta@)),
        forall|id: u32|
            1 <= id < p.meta.num_pages ==> #[trigger] has_page(snapshot_file(p, disk), id)
                && Some(file_page(snapshot_file(p, disk), id)) == p.page_at(disk, id),
{
    let target = disk.len() as int;
    let start = disk.push(Seq::empty());
    let f = every_op(p);
    let n = p.meta.num_pages as nat;
    let meta = encoded(standalone(p.meta@));
    let end = seq![Op::Write { offset: 0, bytes: meta }, Op::SyncAll];
    let d1 = apply_all(gather(f, n), target, start);
    let d = apply_all(snapshot_ops(p), target, start);
    lemma_lower(p, disk, start);
    assert(p.faithful(start));
    assert forall|id: u32| 1 <= id < n implies writes_page(#[trigger] p.raw_op(id), id, start)
        && op_bytes(p.raw_op(id), start) == p.page_at(disk, id)->0 by {
        assert(p.pages(disk).contains_key(id));
        assert(p.page_at(start, id) == p.page_at(disk, id));
        law_raw_op(p, start, id);
    }
    lemma_gather(f, n, target, start);
    lemma_apply_concat(gather(f, n), end, target, start);
    law_meta_round_trip(standalone(p.meta@));
    lemma_snapshot_end(meta, target, d1);
    let file = d[target];
    assert(file == written(d1[target], 0, meta));
    assert(file_page(file, 0) =~= meta);
    assert forall|x: u32| 1 <= x < p.meta.num_pages implies #[trigger] has_page(file, x) && Some(
        file_page(file, x),
    ) == p.page_at(disk, x) by {
        assert(p.pages(disk).contains_key(x));
        assert(p.page_at(disk, x) is Some);
        let ops = f(x);
        assert(has_page(d1[target], x));
        assert(file_page(d1[target], x) == p.page_at(disk, x)->0);
        assert(file_page(file, x) =~= file_page(d1[target], x));
    }
}

/// A full snapshot leaves all other files as they are. A database that is opened from the new
/// file alone has no base, has the pages that were in the snapshot and, where they form a tree,
/// holds what was in it.
#[verifier::spinoff_prover]
#[verifier::rlimit(60)]
pub proof fn law_full_snapshot(p: FilePager, r: FilePager, disk: Disk)
    requires
        complete(p, disk),
        opened(r, seq![snapshot_file(p, disk)]),
    ensures
        only(
            disk.len() as int,
            disk.push(Seq::empty()),
            apply_all(snapshot_ops(p), disk.len() as int, disk.push(Seq::empty())),
        ),
        r.meta@ == standalone(p.meta@),
        r.base is None,
        r.faithful(seq![snapshot_file(p, disk)]) ==> complete(r, seq![snapshot_file(p, disk)]),
        r.faithful(seq![snapshot_file(p, disk)]) && sound(p, disk) ==> sound(
            r,
            seq![snapshot_file(p, disk)],
        ) && held(r, seq![snapshot_file(p, disk)]) == held(p, disk),
        same_pages(p, disk, r, seq![snapshot_file(p, disk)]),
{
    let file = snapshot_file(p, disk);
    let one = seq![file];
    lemma_snapshot_file(p, disk);
    law_meta_round_trip(standalone(p.meta@));
    assert(r.meta@ == standalone(p.meta@));
    assert forall|x: u32| 1 <= x < p.meta.num_pages implies #[trigger] r.page_at(one, x)
        == p.page_at(disk, x) by {
        assert(has_page(file, x));
        assert(r.tops(x));
    }
    if r.faithful(one) {
        lemma_kept(p, disk, r, one);
    }
}

/// A fresh database is well formed and holds nothing.
pub proof fn law_fresh(p: FilePager, disk: Disk)
    requires
        p.wf(),
        p.meta@ == fresh_meta(),
        p.faithful(disk),
        p.pages(disk).contains_key(1),
        p.pages(disk)[1] == empty_page(1),
    ensures
        sound(p, disk),
        held(p, disk) == Contents::empty(),
{
    let t = p.pages(disk);
    let nb = empty_page(1);
    assert(t.insert(1, nb) =~= t);
    lemma_root_leaf(t, nb, 1);
    assert forall|id: u32| 1 <= id < p.meta.num_pages implies #[trigger] t.contains_key(id) by {
        assert(id == 1);
    }
}

/// What was written in memory and not synced is lost: `q` is a handle that was just opened or
/// synced, `w` the same handle after a value went under `k`, and `r` is opened from the files
/// as they are. `r` has the meta page and the pages of `q`; where they form a tree, `w` holds
/// the value and `r` what `q` held.
pub proof fn law_unsynced_is_lost(
    q: FilePager,
    w: FilePager,
    r: FilePager,
    k: Seq<u8>,
    v: Seq<u8>,
    disk: Disk,
)
    requires
        opened(q, disk),
        opened(r, disk),
        r.level == q.level,
    ensures
        r.meta@ == q.meta@,
        r.pages(disk) == q.pages(disk),
        held(r, disk) == held(q, disk),
        sound(q, disk) && r.faithful(disk) ==> sound(r, disk),
        held(w, disk) == held(q, disk).insert(k, v) ==> value_of(held(w, disk), k) == Some(v)
            && value_of(held(r, disk), k) == value_of(held(q, disk), k),
{
    lemma_opened_same(q, r, disk);
    assert(r.pages(disk) =~= q.pages(disk)) by {
        assert forall|id: u32| #[trigger] r.page_at(disk, id) == q.page_at(disk, id) by {
            assert(q.page_at(disk, id) == r.page_at(disk, id));
        }
    }
}

/// A flush right after a sync leaves every byte of every file as it is.
pub proof fn law_flush_after_sync(p: FilePager, q: FilePager, disk: Disk)
    requires
        complete(p, disk),
        path_fits(p.meta@.base_path),
        q.wf(),
        after_sync(p, q),
    ensures
        apply_all(
            flush_ops(q),
            q.level as int,
            apply_all(sync_ops(p), p.level as int, disk),
        ) == apply_all(sync_ops(p), p.level as int, disk),
{
    let d = apply_all(sync_ops(p), p.level as int, disk);
    let target = q.level as int;
    lemma_sync_brought(p, disk);
    let f = resident_op(q);
    let n = q.meta.num_pages as nat;
    assert forall|id: u32| id < n && (#[trigger] f(id)).len() != 0 implies {
        &&& has_page(d[target], id)
        &&& f(id) == seq![Op::Copy { level: target, offset: id * PAGE_SIZE }]
    } by {
        assert(q.tops(id) == p.tops(id));
        assert(p.pages(disk).contains_key(id));
        assert(p.page_at(disk, id) is Some);
    }
    lemma_gather_same(f, n, target, d);
    let end = closing(flag_bytes(q), q.meta.num_pages, encoded(q.meta@), Op::SyncAll);
    assert(encoded(q.meta@).len() == PAGE_SIZE);
    lemma_closing_same(
        flag_bytes(q),
        q.meta.num_pages,
        encoded(q.meta@),
        Op::SyncAll,
        target,
        d,
    );
    lemma_apply_concat(gather(f, n), end, target, d);
}

/// A scan that is taken step by step, whatever pages come and go meanwhile, comes to the
/// entries in the range in ascending order. Until it is done, there is a leaf to go on with.
pub proof fn law_stepwise_scan(
    p: FilePager,
    disk: Disk,
    scan: Scan,
    lo: Option<Seq<u8>>,
    hi: Option<Seq<u8>>,
)
    requires
        sound(p, disk),
        scan.rest(p.pages(disk), lo, hi) == scanned(
            p.pages(disk),
            p.meta.root,
            p.meta.height as nat,
            lo,
            hi,
            all_ids(),
        ),
    ensures
        scan.rest(p.pages(disk), lo, hi) matches Run::Done(es) && {
            &&& sorted(es)
            &&& forall|e: Entry| #[trigger]
                es.contains(e) <==> held(p, disk).contains_pair(e.0, e.1) && in_range(e.0, lo, hi)
            &&& scan.done ==> items_view(scan.out@) == es
        },
        scan.done ==> forall|i: int, j: int|
            0 <= i < j < scan.out@.len() ==> key_lt(
                #[trigger] scan.out@[i].0@,
                #[trigger] scan.out@[j].0@,
            ),
        scan.done ==> forall|i: int|
            0 <= i < scan.out@.len() ==> {
                &&& held(p, disk).contains_key(#[trigger] scan.out@[i].0@)
                &&& held(p, disk)[scan.out@[i].0@] == scan.out@[i].1@
                &&& lo is None || lo->0 == scan.out@[i].0@ || key_lt(lo->0, scan.out@[i].0@)
                &&& hi is None || key_lt(scan.out@[i].0@, hi->0)
            },
        scan.done ==> forall|k: Seq<u8>|
            #![trigger held(p, disk).contains_key(k)]
            held(p, disk).contains_key(k) && (lo is None || lo->0 == k || key_lt(lo->0, k)) && (
            hi is None || key_lt(k, hi->0)) ==> exists|i: int|
                0 <= i < scan.out@.len() && #[trigger] scan.out@[i].0@ == k,
        !scan.done ==> scan.left > 0 && p.pages(disk).contains_key(scan.leaf),
{
    let t = p.pages(disk);
    let h = p.meta.height as nat;
    let n = p.meta.num_pages;
    lemma_scanned(t, t, p.meta.root, h, n as int, lo, hi, all_ids());
    if let Run::Missing(x) = scanned(t, p.meta.root, h, lo, hi, all_ids()) {
        lemma_owned_here(t, top(p.meta.root, h), x);
    }
    if scan.done {
        lemma_listed(scan.out@, held(p, disk), lo, hi);
    }
}

/// The leaf where the way down for a key ends decides the key: what a lookup of the key comes to
/// is what that leaf reads under it and, where the pages form a tree, the value that the database
/// holds. The path has a page for each level above the leaf, the root first.
pub proof fn law_leaf_decides(
    p: FilePager,
    disk: Disk,
    key: Seq<u8>,
    path: Seq<u32>,
    leaf: u32,
)
    requires
        p.meta.height >= 1,
        descend(p.store(), p.meta.root, p.meta.height as nat, Some(key)) == Descent::Leaf(leaf),
        trail(p.store(), p.meta.root, p.meta.height as nat, key, path),
    ensures
        path.len() == p.meta.height - 1,
        p.meta.height == 1 ==> leaf == p.meta.root,
        p.meta.height > 1 ==> path[0] == p.meta.root,
        p.store().contains_key(leaf) ==> sought(
            p.store(),
            p.meta.root,
            p.meta.height as nat,
            key,
        ) == match reading(p.store()[leaf], key) {
            Some(v) => Sought::Found(v),
            None => Sought::Unreadable(leaf),
        },
        sound(p, disk) ==> value_of(held(p, disk), key) == lookup(
            entries(p.pages(disk)[leaf]),
            key,
        ),
        sound(p, disk) ==> value_of(held(p, disk), key) == seen(p.pages(disk)[leaf], key),
{
    if p.meta.height > 1 {
        assert(path[0] == stop(p.store(), p.meta.root, key, 0));
    }
    if sound(p, disk) {
        let t = p.pages(disk);
        let s = top(p.meta.root, p.meta.height as nat);
        lemma_leaf_spot(p, disk, key, leaf);
        p.lemma_store(disk);
        lemma_descend(p.store(), t, s, Some(key));
        lemma_leaf_for(t, s, key);
        lemma_page_ok(t[leaf]);
        assert(seen(t[leaf], key) == lookup(entries(t[leaf]), key));
    }
}

/// What a database holds is within the limits of an entry.
pub proof fn law_held_sizes(p: FilePager, disk: Disk, k: Seq<u8>)
    requires
        sound(p, disk),
        held(p, disk).contains_key(k),
    ensures
        k.len() <= 1024,
        7 + k.len() + held(p, disk)[k].len() <= 2048,
{
    let t = p.pages(disk);
    let root = p.meta.root;
    let h = p.meta.height as nat;
    let s = top(root, h);
    law_empty_key_first(k);
    lemma_leaf_for(t, s, k);
    lemma_leaves(t, s);
    let l = leaves(t, root, h);
    let i = choose|i: int| #[trigger] parts_at(t, l, i, k) && l[i] == leaf_for(t, root, h, k);
    let es = entries(t[l[i]]);
    lemma_rank(es, k);
    let r = rank(es, k);
    assert(leaf_ok(t[l[i]]));
    assert(entry_fits(es[r].0, es[r].1));
}

/// A lookup after an insertion finds the new value under its key, and under any other key what
/// was there.
pub proof fn law_get_after_insert(c: Contents, k: Seq<u8>, v: Seq<u8>, q: Seq<u8>)
    ensures
        value_of(c.insert(k, v), q) == if q == k {
            Some(v)
        } else {
            value_of(c, q)
        },
{
}

/// A lookup after a deletion finds nothing under the deleted key, and under any other key what
/// was there.
pub proof fn law_get_after_delete(c: Contents, k: Seq<u8>, q: Seq<u8>)
    ensures
        value_of(c.remove(k), q) == if q == k {
            None
        } else {
            value_of(c, q)
        },
{
}

/// The last of two insertions under one key counts.
pub proof fn law_insert_overwrites(c: Contents, k: Seq<u8>, v: Seq<u8>, w: Seq<u8>)
    ensures
        c.insert(k, v).insert(k, w) == c.insert(k, w),
{
    assert(c.insert(k, v).insert(k, w) =~= c.insert(k, w));
}

/// Deleting a key that was not there before it was inserted undoes the insertion.
pub proof fn law_delete_undoes_insert(c: Contents, k: Seq<u8>, v: Seq<u8>)
    requires
        !c.contains_key(k),
    ensures
        c.insert(k, v).remove(k) == c,
{
    assert(c.insert(k, v).remove(k) =~= c);
}

} // verus!
