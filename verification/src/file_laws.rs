//! What the operations on files do, and in which order the plans have them.

use vstd::prelude::*;
use vstd::utf8::encode_utf8;

use crate::bits::{law_packed_bits, packed, packed_len};
use crate::files::{
    all_ids, apply_all, closing, file_flags, file_page, gather, has_page, lemma_apply_concat,
    lemma_gather_each, of_some_page, only, op_bytes, ops_view, Disk, FileOp, Op,
};
use crate::laws::{
    brought, complete, lemma_flush_brought, lemma_snapshot_file, lemma_sync_brought, snapshot_file,
};
use crate::layout::PAGE_SIZE;
use crate::meta::{
    decodes, encoded, law_meta_bytes, law_meta_round_trip, path_fits, path_named, MetaModel,
};
use crate::pager::FilePager;
use crate::plan::{
    dirty_op, every_op, flag_bytes, flush_ops, resident_op, snapshot_ops, standalone, sync_ops,
};

verus! {

/// Page `id` of a file is its 8192 bytes from `id * 8192` on.
pub proof fn law_file_page(file: Seq<u8>, id: u32)
    ensures
        has_page(file, id) <==> file.len() >= 8192 * id + 8192,
        has_page(file, id) ==> file_page(file, id).len() == 8192,
        has_page(file, id) ==> forall|i: int|
            0 <= i < 8192 ==> #[trigger] file_page(file, id)[i] == file[8192 * id + i],
{
}

/// The flags of a file stand behind its last page.
pub proof fn law_file_flags(file: Seq<u8>, num_pages: u32, len: int)
    requires
        0 <= len,
        8192 * num_pages + len <= file.len(),
    ensures
        file_flags(file, num_pages, len).len() == len,
        forall|i: int|
            0 <= i < len ==> #[trigger] file_flags(file, num_pages, len)[i] == file[8192 * num_pages
                + i],
{
}

/// A write puts its bytes at its offset in its file. All other bytes and all other files stay,
/// and a gap behind the end of the file is filled with zeros.
pub proof fn law_write(offset: int, bytes: Seq<u8>, target: int, disk: Disk)
    requires
        0 <= target < disk.len(),
        0 <= offset,
    ensures
        ({
            let d = apply_all(seq![Op::Write { offset, bytes }], target, disk);
            &&& d.len() == disk.len()
            &&& forall|j: int| 0 <= j < disk.len() && j != target ==> #[trigger] d[j] == disk[j]
            &&& d[target].len() >= disk[target].len()
            &&& d[target].len() >= offset + bytes.len()
            &&& d[target].len() == disk[target].len() || d[target].len() == offset + bytes.len()
            &&& forall|i: int|
                0 <= i < bytes.len() ==> d[target][offset + i] == #[trigger] bytes[i]
            &&& forall|i: int|
                0 <= i < disk[target].len() && !(offset <= i < offset + bytes.len())
                    ==> #[trigger] d[target][i] == disk[target][i]
            &&& forall|i: int|
                disk[target].len() <= i < offset ==> #[trigger] d[target][i] == 0
        }),
{
    let ops = seq![Op::Write { offset, bytes }];
    assert(ops.drop_last() =~= Seq::<Op>::empty());
    reveal_with_fuel(apply_all, 2);
}

/// A copy is a write of the page that stands at its offset in the file it is copied from.
pub proof fn law_copy(level: int, offset: int, target: int, disk: Disk)
    requires
        0 <= target < disk.len(),
        0 <= level < disk.len(),
        0 <= offset,
        offset + 8192 <= disk[level].len(),
    ensures
        apply_all(seq![Op::Copy { level, offset }], target, disk) == apply_all(
            seq![Op::Write { offset, bytes: disk[level].subrange(offset, offset + 8192) }],
            target,
            disk,
        ),
{
    let a = seq![Op::Copy { level, offset }];
    let b = seq![Op::Write { offset, bytes: disk[level].subrange(offset, offset + 8192) }];
    assert(a.drop_last() =~= Seq::<Op>::empty());
    assert(b.drop_last() =~= Seq::<Op>::empty());
    reveal_with_fuel(apply_all, 2);
}

/// The bytes that an operation writes are its own, or those of the page that it copies.
pub proof fn law_op_bytes(level: int, offset: int, bytes: Seq<u8>, disk: Disk)
    ensures
        op_bytes(Op::Write { offset, bytes }, disk) == bytes,
        op_bytes(Op::Copy { level, offset }, disk) == disk[level].subrange(offset, offset + 8192),
{
}

/// Operations are carried out one after the other, and one that brings bytes to the disk changes
/// no byte.
pub proof fn law_carry_out(a: Seq<Op>, b: Seq<Op>, target: int, disk: Disk)
    ensures
        apply_all(Seq::empty(), target, disk) == disk,
        apply_all(seq![Op::SyncData], target, disk) == disk,
        apply_all(seq![Op::SyncAll], target, disk) == disk,
        apply_all(a + b, target, disk) == apply_all(b, target, apply_all(a, target, disk)),
{
    lemma_apply_concat(a, b, target, disk);
    assert(seq![Op::SyncData].drop_last() =~= Seq::<Op>::empty());
    assert(seq![Op::SyncAll].drop_last() =~= Seq::<Op>::empty());
    reveal_with_fuel(apply_all, 2);
}

/// A plan stands for its operations as they are, in their order.
pub proof fn law_plan(ops: Seq<FileOp>)
    ensures
        ops_view(ops).len() == ops.len(),
        forall|i: int|
            0 <= i < ops.len() ==> match #[trigger] ops[i] {
                FileOp::Write { offset, bytes } => ops_view(ops)[i] == (Op::Write {
                    offset: offset as int,
                    bytes: bytes@,
                }),
                FileOp::Copy { level, offset } => ops_view(ops)[i] == (Op::Copy {
                    level: level as int,
                    offset: offset as int,
                }),
                FileOp::SyncData => ops_view(ops)[i] == Op::SyncData,
                FileOp::SyncAll => ops_view(ops)[i] == Op::SyncAll,
            },
{
}

/// The files `d` differ from `disk` in file `target` alone, which has not become shorter.
pub proof fn law_only(target: int, disk: Disk, d: Disk)
    requires
        0 <= target < disk.len(),
    ensures
        only(target, disk, d) <==> {
            &&& d.len() == disk.len()
            &&& forall|j: int| 0 <= j < disk.len() && j != target ==> #[trigger] d[j] == disk[j]
            &&& d[target].len() >= disk[target].len()
        },
{
}

/// How a sync and a flush end, given how they start: the pages and the flags are brought to the
/// disk before the meta page is written, and the meta page is brought there last.
proof fn lemma_closing_order(
    front: Seq<Op>,
    flags: Option<Seq<u8>>,
    num_pages: u32,
    meta: Seq<u8>,
    sync: Op,
)
    ensures
        ({
            let ops = front + closing(flags, num_pages, meta, sync);
            let n = ops.len() as int;
            let m = front.len() as int;
            &&& n == m + if flags is Some {
                4int
            } else {
                3int
            }
            &&& ops[n - 1] == sync
            &&& ops[n - 2] == (Op::Write { offset: 0, bytes: meta })
            &&& ops[n - 3] == sync
            &&& flags matches Some(bytes) ==> ops[n - 4] == (Op::Write {
                offset: num_pages * PAGE_SIZE,
                bytes,
            })
            &&& forall|i: int| 0 <= i < m ==> #[trigger] ops[i] == front[i]
        }),
{
}

/// A sync is durable. Its last operation brings bytes to the disk. The one before writes the meta
/// page, which nothing else writes over, and before that all other writes are brought to the
/// disk: each dirty page at its place, and behind the last page the flags of a file with a base.
#[verifier::spinoff_prover]
#[verifier::rlimit(60)]
pub proof fn law_sync_order(p: FilePager)
    ensures
        ({
            let ops = sync_ops(p);
            let n = ops.len() as int;
            &&& n >= 3
            &&& ops[n - 1] == Op::SyncData
            &&& ops[n - 2] == (Op::Write { offset: 0, bytes: encoded(p.meta@) })
            &&& ops[n - 3] == Op::SyncData
            &&& forall|id: u32| #[trigger]
                p.dirty@.contains_key(id) ==> exists|i: int|
                    0 <= i < n - 3 && #[trigger] ops[i] == (Op::Write {
                        offset: 8192 * id,
                        bytes: p.dirty@[id]@,
                    })
            &&& p.base is Some && p.meta.base_offset > 0 ==> n >= 4 && ops[n - 4] == (Op::Write {
                offset: 8192 * p.meta.num_pages,
                bytes: packed(p.copied@),
            })
            &&& forall|i: int|
                0 <= i < n - 3 && !(i == n - 4 && p.base is Some && p.meta.base_offset > 0)
                    ==> #[trigger] ops[i] is Write && exists|id: u32| #[trigger]
                    p.dirty@.contains_key(id) && ops[i]->Write_offset == 8192 * id
                        && ops[i]->bytes == p.dirty@[id]@
        }),
{
    let f = dirty_op(p);
    let front = gather(f, all_ids());
    let ops = sync_ops(p);
    let n = ops.len() as int;
    lemma_closing_order(front, flag_bytes(p), p.meta.num_pages, encoded(p.meta@), Op::SyncData);
    lemma_gather_each(f, all_ids());
    assert forall|id: u32| #[trigger] p.dirty@.contains_key(id) implies exists|i: int|
        0 <= i < n - 3 && #[trigger] ops[i] == (Op::Write {
            offset: 8192 * id,
            bytes: p.dirty@[id]@,
        }) by {
        let op = Op::Write { offset: id * PAGE_SIZE, bytes: p.dirty@[id]@ };
        assert(f(id) == seq![op]);
        assert(seq![op][0] == op);
        assert(f(id).contains(op));
        assert(front.contains(op));
        let i = choose|i: int| 0 <= i < front.len() && front[i] == op;
        assert(ops[i] == front[i]);
    }
    assert forall|i: int|
        0 <= i < n - 3 && !(i == n - 4 && p.base is Some && p.meta.base_offset > 0) implies {
        &&& #[trigger] ops[i] is Write
        &&& exists|id: u32| #[trigger]
            p.dirty@.contains_key(id) && ops[i]->Write_offset == 8192 * id && ops[i]->bytes
                == p.dirty@[id]@
    } by {
        assert(ops[i] == front[i]);
        assert(of_some_page(f, all_ids(), front[i]));
        let id = choose|id: u32| id < all_ids() && #[trigger] f(id).contains(front[i]);
        assert(p.dirty@.contains_key(id));
        assert(f(id) == seq![Op::Write { offset: id * PAGE_SIZE, bytes: p.dirty@[id]@ }]);
    }
}

/// A flush writes every page that belongs to the file itself, dirty or not: as it is in memory, or
/// as it is in the file. It is durable as a sync is, and brings the attributes of the file to the
/// disk as well.
#[verifier::spinoff_prover]
#[verifier::rlimit(60)]
pub proof fn law_flush_order(p: FilePager)
    requires
        p.wf(),
    ensures
        ({
            let ops = flush_ops(p);
            let n = ops.len() as int;
            &&& n >= 3
            &&& ops[n - 1] == Op::SyncAll
            &&& ops[n - 2] == (Op::Write { offset: 0, bytes: encoded(p.meta@) })
            &&& ops[n - 3] == Op::SyncAll
            &&& forall|id: u32| #[trigger]
                p.tops(id) && 1 <= id < p.meta.num_pages && p.dirty@.contains_key(id) ==> exists|
                    i: int,
                |
                    0 <= i < n - 3 && #[trigger] ops[i] == (Op::Write {
                        offset: 8192 * id,
                        bytes: p.dirty@[id]@,
                    })
            &&& forall|id: u32| #[trigger]
                p.tops(id) && 1 <= id < p.meta.num_pages && !p.dirty@.contains_key(id) ==> exists|
                    i: int,
                |
                    0 <= i < n - 3 && #[trigger] ops[i] == (Op::Copy {
                        level: p.level as int,
                        offset: 8192 * id,
                    })
            &&& forall|id: u32| #[trigger]
                p.tops(id) <==> id >= p.meta.base_offset || p.copied@[id as int]
            &&& p.base is Some && p.meta.base_offset > 0 ==> n >= 4 && ops[n - 4] == (Op::Write {
                offset: 8192 * p.meta.num_pages,
                bytes: packed(p.copied@),
            })
            &&& forall|i: int|
                0 <= i < n - 3 && !(i == n - 4 && p.base is Some && p.meta.base_offset > 0) ==> {
                    ||| #[trigger] ops[i] is Write && ops[i]->Write_offset >= 8192
                    ||| ops[i] is Copy && ops[i]->Copy_offset >= 8192
                }
        }),
{
    let f = resident_op(p);
    let m = p.meta.num_pages as nat;
    let front = gather(f, m);
    let ops = flush_ops(p);
    let n = ops.len() as int;
    lemma_closing_order(front, flag_bytes(p), p.meta.num_pages, encoded(p.meta@), Op::SyncAll);
    lemma_gather_each(f, m);
    assert forall|id: u32| #[trigger] p.tops(id) && 1 <= id < p.meta.num_pages implies exists|i: int|
        0 <= i < n - 3 && #[trigger] ops[i] == p.raw_op(id) by {
        let op = p.raw_op(id);
        assert(f(id) == seq![op]);
        assert(seq![op][0] == op);
        assert(f(id).contains(op));
        assert(front.contains(op));
        let i = choose|i: int| 0 <= i < front.len() && front[i] == op;
        assert(ops[i] == front[i]);
    }
    assert forall|i: int|
        0 <= i < n - 3 && !(i == n - 4 && p.base is Some && p.meta.base_offset > 0) implies {
        ||| #[trigger] ops[i] is Write && ops[i]->Write_offset >= 8192
        ||| ops[i] is Copy && ops[i]->Copy_offset >= 8192
    } by {
        assert(ops[i] == front[i]);
        assert(of_some_page(f, m, front[i]));
        let id = choose|id: u32| id < m && #[trigger] f(id).contains(front[i]);
        assert(1 <= id && p.tops(id));
        assert(f(id) == seq![p.raw_op(id)]);
    }
}

/// A full snapshot writes every page, then the meta page, and then brings all to the disk.
#[verifier::spinoff_prover]
#[verifier::rlimit(60)]
pub proof fn law_snapshot_order(p: FilePager)
    ensures
        ({
            let ops = snapshot_ops(p);
            let n = ops.len() as int;
            &&& n >= 2
            &&& ops[n - 1] == Op::SyncAll
            &&& ops[n - 2] is Write && ops[n - 2]->Write_offset == 0
            &&& forall|id: u32|
                1 <= id < p.meta.num_pages ==> exists|i: int|
                    0 <= i < n - 2 && ops[i] == #[trigger] p.raw_op(id)
            &&& forall|i: int|
                0 <= i < n - 2 ==> exists|id: u32|
                    1 <= id < p.meta.num_pages && #[trigger] ops[i] == #[trigger] p.raw_op(id)
        }),
{
    let f = every_op(p);
    let m = p.meta.num_pages as nat;
    let front = gather(f, m);
    let ops = snapshot_ops(p);
    let n = ops.len() as int;
    lemma_gather_each(f, m);
    assert forall|id: u32| 1 <= id < p.meta.num_pages implies exists|i: int|
        0 <= i < n - 2 && ops[i] == #[trigger] p.raw_op(id) by {
        let op = p.raw_op(id);
        assert(f(id) == seq![op]);
        assert(seq![op][0] == op);
        assert(f(id).contains(op));
        assert(front.contains(op));
        let i = choose|i: int| 0 <= i < front.len() && front[i] == op;
        assert(ops[i] == front[i]);
    }
    assert forall|i: int| 0 <= i < n - 2 implies exists|id: u32|
        1 <= id < p.meta.num_pages && #[trigger] ops[i] == #[trigger] p.raw_op(id) by {
        assert(ops[i] == front[i]);
        assert(of_some_page(f, m, front[i]));
        let id = choose|id: u32| id < m && #[trigger] f(id).contains(front[i]);
        assert(f(id) == seq![p.raw_op(id)]);
    }
}

/// Up to the write of the meta page a sync leaves the meta page in the file as it was, however
/// far it came: a meta page never refers to a page that is not on the disk yet.
pub proof fn law_meta_page_last(p: FilePager, disk: Disk, k: int)
    requires
        0 <= p.level < disk.len(),
        p.meta.num_pages >= 1,
        !p.dirty@.contains_key(0),
        0 <= k <= sync_ops(p).len() - 2,
        disk[p.level as int].len() >= 8192,
    ensures
        ({
            let d = apply_all(sync_ops(p).take(k), p.level as int, disk);
            &&& d.len() == disk.len()
            &&& d[p.level as int].len() >= 8192
            &&& d[p.level as int].take(8192) == disk[p.level as int].take(8192)
        }),
    decreases k,
{
    let ops = sync_ops(p);
    let target = p.level as int;
    let a = ops.take(k);
    law_sync_order(p);
    if k == 0 {
        assert(a =~= Seq::<Op>::empty());
    } else {
        law_meta_page_last(p, disk, k - 1);
        let d1 = apply_all(ops.take(k - 1), target, disk);
        assert(a.drop_last() =~= ops.take(k - 1));
        assert(a.last() == ops[k - 1]);
        let d = apply_all(a, target, disk);
        let n = ops.len() as int;
        if k - 1 < n - 3 {
            let op = ops[k - 1];
            assert(op is Write && op->Write_offset >= 8192) by {
                if !(k - 1 == n - 4 && p.base is Some && p.meta.base_offset > 0) {
                    let id = choose|id: u32| #[trigger]
                        p.dirty@.contains_key(id) && op->Write_offset == 8192 * id && op->bytes
                            == p.dirty@[id]@;
                    assert(id != 0);
                }
            }
            assert(d[target].take(8192) =~= d1[target].take(8192));
        } else {
            assert(ops[k - 1] == Op::SyncData);
            assert(d == d1);
        }
    }
}

/// What is in a file that was brought up to date, byte by byte.
#[verifier::spinoff_prover]
#[verifier::rlimit(60)]
proof fn lemma_brought_bytes(p: FilePager, disk: Disk, d: Disk)
    requires
        complete(p, disk),
        path_fits(p.meta@.base_path),
        brought(p, disk, d),
    ensures
        ({
            let file = d[p.level as int];
            let num_pages = p.meta.num_pages;
            &&& file.len() >= 8192
            &&& file[0] == 83 && file[1] == 73 && file[2] == 77 && file[3] == 80
            &&& file[4] == 76 && file[5] == 69 && file[6] == 68 && file[7] == 66
            &&& file[8] + 256 * file[9] + 65536 * file[10] + 16777216 * file[11] == p.meta.root
            &&& file[12] + 256 * file[13] + 65536 * file[14] + 16777216 * file[15] == num_pages
            &&& file[16] + 256 * file[17] + 65536 * file[18] + 16777216 * file[19]
                == p.meta.height
            &&& file[20] + 256 * file[21] + 65536 * file[22] + 16777216 * file[23]
                == p.meta.base_offset
            &&& p.meta.base_path matches Some(path) ==> {
                &&& file[24] + 256 * file[25] + 65536 * file[26] + 16777216 * file[27]
                    == encode_utf8(path@).len()
                &&& file.subrange(28, 28int + encode_utf8(path@).len()) == encode_utf8(path@)
            }
            &&& p.meta.base_path is None ==> file[24] == 0 && file[25] == 0 && file[26] == 0
                && file[27] == 0
            &&& forall|id: u32|
                1 <= id < num_pages && p.tops(id) ==> file.len() >= 8192 * id + 8192 && Some(
                    file.subrange(8192 * id, 8192 * id + 8192),
                ) == #[trigger] p.page_at(disk, id)
            &&& p.base is Some ==> forall|id: u32|
                id < p.meta.base_offset ==> {
                    &&& file.len() > 8192 * num_pages + id / 8
                    &&& #[trigger] p.copied@[id as int] <==> file[8192 * num_pages + id / 8] & (1u8
                        << ((id % 8) as u8)) != 0
                }
        }),
{
    let file = d[p.level as int];
    let num_pages = p.meta.num_pages;
    let b = file_page(file, 0);
    law_meta_bytes(p.meta@);
    assert forall|i: int| 0 <= i < 8192 implies #[trigger] file[i] == b[i] by {}
    assert(b.len() == 8192);
    assert(file[0] == b[0] && file[1] == b[1] && file[2] == b[2] && file[3] == b[3]);
    assert(file[4] == b[4] && file[5] == b[5] && file[6] == b[6] && file[7] == b[7]);
    assert(file[8] == b[8] && file[9] == b[9] && file[10] == b[10] && file[11] == b[11]);
    assert(file[12] == b[12] && file[13] == b[13] && file[14] == b[14] && file[15] == b[15]);
    assert(file[16] == b[16] && file[17] == b[17] && file[18] == b[18] && file[19] == b[19]);
    assert(file[20] == b[20] && file[21] == b[21] && file[22] == b[22] && file[23] == b[23]);
    assert(file[24] == b[24] && file[25] == b[25] && file[26] == b[26] && file[27] == b[27]);
    if let Some(path) = p.meta.base_path {
        let n = encode_utf8(path@).len() as int;
        assert(p.meta@.base_path == Some(path@));
        assert(file.subrange(28, 28 + n) =~= b.subrange(28, 28 + n));
    }
    assert forall|id: u32| 1 <= id < num_pages && p.tops(id) implies file.len() >= 8192 * id + 8192
        && Some(file.subrange(8192 * id, 8192 * id + 8192)) == #[trigger] p.page_at(disk, id) by {
        assert(p.pages(disk).contains_key(id));
        assert(p.page_at(disk, id) is Some);
        assert(has_page(file, id));
        assert(file.subrange(8192 * id, 8192 * id + 8192) =~= file_page(file, id));
    }
    if p.base is Some {
        assert forall|id: u32| id < p.meta.base_offset implies {
            &&& file.len() > 8192 * num_pages + id / 8
            &&& #[trigger] p.copied@[id as int] <==> file[8192 * num_pages + id / 8] & (1u8 << ((id
                % 8) as u8)) != 0
        } by {
            let len = packed_len(p.meta.base_offset as int);
            let flags = file_flags(file, num_pages, len);
            assert(flags == packed(p.copied@));
            law_packed_bits(p.copied@, id as int);
            assert(flags[(id / 8) as int] == file[8192 * num_pages + id / 8]);
        }
    }
}

/// What a sync leaves in the file, byte by byte: a meta page that starts with the magic and says
/// what the pager's meta page says, each page of the file itself at its place, and behind the last
/// page a bit for each page of the base.
pub proof fn law_synced_file(p: FilePager, disk: Disk)
    requires
        complete(p, disk),
        path_fits(p.meta@.base_path),
    ensures
        ({
            let file = apply_all(sync_ops(p), p.level as int, disk)[p.level as int];
            let num_pages = p.meta.num_pages;
            &&& file.len() >= 8192
            &&& file[0] == 83 && file[1] == 73 && file[2] == 77 && file[3] == 80
            &&& file[4] == 76 && file[5] == 69 && file[6] == 68 && file[7] == 66
            &&& file[8] + 256 * file[9] + 65536 * file[10] + 16777216 * file[11] == p.meta.root
            &&& file[12] + 256 * file[13] + 65536 * file[14] + 16777216 * file[15] == num_pages
            &&& file[16] + 256 * file[17] + 65536 * file[18] + 16777216 * file[19]
                == p.meta.height
            &&& file[20] + 256 * file[21] + 65536 * file[22] + 16777216 * file[23]
                == p.meta.base_offset
            &&& p.meta.base_path matches Some(path) ==> {
                &&& file[24] + 256 * file[25] + 65536 * file[26] + 16777216 * file[27]
                    == encode_utf8(path@).len()
                &&& file.subrange(28, 28int + encode_utf8(path@).len()) == encode_utf8(path@)
            }
            &&& p.meta.base_path is None ==> file[24] == 0 && file[25] == 0 && file[26] == 0
                && file[27] == 0
            &&& forall|id: u32|
                1 <= id < num_pages && p.tops(id) ==> file.len() >= 8192 * id + 8192 && Some(
                    file.subrange(8192 * id, 8192 * id + 8192),
                ) == #[trigger] p.page_at(disk, id)
            &&& p.base is Some ==> forall|id: u32|
                id < p.meta.base_offset ==> {
                    &&& file.len() > 8192 * num_pages + id / 8
                    &&& #[trigger] p.copied@[id as int] <==> file[8192 * num_pages + id / 8] & (1u8
                        << ((id % 8) as u8)) != 0
                }
        }),
{
    lemma_sync_brought(p, disk);
    lemma_brought_bytes(p, disk, apply_all(sync_ops(p), p.level as int, disk));
}

/// What a flush leaves in the file, byte by byte: the same as a sync.
pub proof fn law_flushed_file(p: FilePager, disk: Disk)
    requires
        complete(p, disk),
        path_fits(p.meta@.base_path),
    ensures
        ({
            let file = apply_all(flush_ops(p), p.level as int, disk)[p.level as int];
            let num_pages = p.meta.num_pages;
            &&& file.len() >= 8192
            &&& file[0] == 83 && file[1] == 73 && file[2] == 77 && file[3] == 80
            &&& file[4] == 76 && file[5] == 69 && file[6] == 68 && file[7] == 66
            &&& file[8] + 256 * file[9] + 65536 * file[10] + 16777216 * file[11] == p.meta.root
            &&& file[12] + 256 * file[13] + 65536 * file[14] + 16777216 * file[15] == num_pages
            &&& file[16] + 256 * file[17] + 65536 * file[18] + 16777216 * file[19]
                == p.meta.height
            &&& file[20] + 256 * file[21] + 65536 * file[22] + 16777216 * file[23]
                == p.meta.base_offset
            &&& p.meta.base_path matches Some(path) ==> {
                &&& file[24] + 256 * file[25] + 65536 * file[26] + 16777216 * file[27]
                    == encode_utf8(path@).len()
                &&& file.subrange(28, 28int + encode_utf8(path@).len()) == encode_utf8(path@)
            }
            &&& p.meta.base_path is None ==> file[24] == 0 && file[25] == 0 && file[26] == 0
                && file[27] == 0
            &&& forall|id: u32|
                1 <= id < num_pages && p.tops(id) ==> file.len() >= 8192 * id + 8192 && Some(
                    file.subrange(8192 * id, 8192 * id + 8192),
                ) == #[trigger] p.page_at(disk, id)
            &&& p.base is Some ==> forall|id: u32|
                id < p.meta.base_offset ==> {
                    &&& file.len() > 8192 * num_pages + id / 8
                    &&& #[trigger] p.copied@[id as int] <==> file[8192 * num_pages + id / 8] & (1u8
                        << ((id % 8) as u8)) != 0
                }
        }),
{
    lemma_flush_brought(p, disk);
    lemma_brought_bytes(p, disk, apply_all(flush_ops(p), p.level as int, disk));
}

/// What a full snapshot writes, byte by byte: a meta page that starts with the magic, says what
/// the pager's meta page says of the tree, and names no base; and every page at its place, wherever
/// it was read from. Such a file opens on its own.
#[verifier::spinoff_prover]
#[verifier::rlimit(60)]
pub proof fn law_snapshot_file(p: FilePager, disk: Disk)
    requires
        complete(p, disk),
    ensures
        ({
            let file = snapshot_file(p, disk);
            let num_pages = p.meta.num_pages;
            &&& file.len() >= 8192
            &&& file[0] == 83 && file[1] == 73 && file[2] == 77 && file[3] == 80
            &&& file[4] == 76 && file[5] == 69 && file[6] == 68 && file[7] == 66
            &&& file[8] + 256 * file[9] + 65536 * file[10] + 16777216 * file[11] == p.meta.root
            &&& file[12] + 256 * file[13] + 65536 * file[14] + 16777216 * file[15] == num_pages
            &&& file[16] + 256 * file[17] + 65536 * file[18] + 16777216 * file[19]
                == p.meta.height
            &&& forall|i: int| 20 <= i < 8192 ==> #[trigger] file[i] == 0
            &&& forall|id: u32|
                1 <= id < num_pages ==> file.len() >= 8192 * id + 8192 && Some(
                    file.subrange(8192 * id, 8192 * id + 8192),
                ) == #[trigger] p.page_at(disk, id)
        }),
        snapshot_file(p, disk) == apply_all(
            snapshot_ops(p),
            disk.len() as int,
            disk.push(Seq::empty()),
        )[disk.len() as int],
        decodes(
            file_page(snapshot_file(p, disk), 0),
            (MetaModel {
                root: p.meta.root,
                num_pages: p.meta.num_pages,
                height: p.meta.height,
                base_offset: 0,
                base_path: None,
            }),
        ),
{
    let file = snapshot_file(p, disk);
    let m = MetaModel {
        root: p.meta.root,
        num_pages: p.meta.num_pages,
        height: p.meta.height,
        base_offset: 0,
        base_path: None,
    };
    lemma_snapshot_file(p, disk);
    assert(standalone(p.meta@) == m);
    law_meta_bytes(m);
    law_meta_round_trip(m);
    let b = file_page(file, 0);
    assert forall|i: int| 0 <= i < 8192 implies #[trigger] file[i] == b[i] by {}
    assert(b[20] == 0 && b[21] == 0 && b[22] == 0 && b[23] == 0);
    assert forall|i: int| 20 <= i < 8192 implies #[trigger] file[i] == 0 by {
        assert(file[i] == b[i]);
        if i >= 24 {
            assert(b[i] == 0);
        }
    }
    assert forall|id: u32| 1 <= id < p.meta.num_pages implies file.len() >= 8192 * id + 8192 && Some(
        file.subrange(8192 * id, 8192 * id + 8192),
    ) == #[trigger] p.page_at(disk, id) by {
        assert(has_page(file, id));
        assert(file.subrange(8192 * id, 8192 * id + 8192) =~= file_page(file, id));
    }
}

/// The meta page that a sync or a flush leaves in the file opens, and says what the pager's meta
/// page says.
pub proof fn law_synced_file_opens(p: FilePager, disk: Disk)
    requires
        complete(p, disk),
        path_fits(p.meta@.base_path),
        path_named(p.meta@.base_path),
    ensures
        ({
            let d = apply_all(sync_ops(p), p.level as int, disk);
            let e = apply_all(flush_ops(p), p.level as int, disk);
            &&& has_page(d[p.level as int], 0)
            &&& decodes(file_page(d[p.level as int], 0), p.meta@)
            &&& has_page(e[p.level as int], 0)
            &&& decodes(file_page(e[p.level as int], 0), p.meta@)
        }),
{
    lemma_sync_brought(p, disk);
    lemma_flush_brought(p, disk);
    law_meta_round_trip(p.meta@);
}

/// Only a page that starts with the magic `SIMPLEDB` is a meta page, and its fields are read from
/// their places.
pub proof fn law_meta_page(b: Seq<u8>, m: MetaModel)
    requires
        b.len() == 8192,
        decodes(b, m),
    ensures
        b[0] == 83 && b[1] == 73 && b[2] == 77 && b[3] == 80,
        b[4] == 76 && b[5] == 69 && b[6] == 68 && b[7] == 66,
        m.root == b[8] + 256 * b[9] + 65536 * b[10] + 16777216 * b[11],
        m.num_pages == b[12] + 256 * b[13] + 65536 * b[14] + 16777216 * b[15],
        m.height == b[16] + 256 * b[17] + 65536 * b[18] + 16777216 * b[19],
        m.base_offset == b[20] + 256 * b[21] + 65536 * b[22] + 16777216 * b[23],
        m.base_path is None <==> b[24] == 0 && b[25] == 0 && b[26] == 0 && b[27] == 0,
        28 + b[24] + 256 * b[25] + 65536 * b[26] + 16777216 * b[27] <= 8192,
{
    let h = b.take(8);
    assert(h[0] == b[0] && h[1] == b[1] && h[2] == b[2] && h[3] == b[3]);
    assert(h[4] == b[4] && h[5] == b[5] && h[6] == b[6] && h[7] == b[7]);
}

} // verus!
