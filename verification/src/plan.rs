//! The operations that bring a file up to date.

use vstd::prelude::*;
use vstd::slice::slice_to_vec;
use vstd::std_specs::btree::{group_btree_axioms, increasing_seq};
use vstd::std_specs::cmp::OrdSpec;
use vstd::std_specs::iter::IteratorSpec;

use crate::bits::{pack_bits, packed};
use crate::file_laws::{law_flush_order, law_snapshot_order, law_sync_order};
use crate::files::{all_ids, closing, gather, lemma_gather_gap, ops_view, FileOp, Op};
use crate::layout::PAGE_SIZE;
use crate::meta::{encoded, law_meta_bytes, path_fits, Meta, MetaModel};
use crate::page::Page;
use crate::pager::FilePager;

verus! {

/// The write of a dirty page, nothing for any other.
pub open spec fn dirty_op(p: FilePager) -> spec_fn(u32) -> Seq<Op> {
    |id: u32|
        if p.dirty@.contains_key(id) {
            seq![Op::Write { offset: id * PAGE_SIZE, bytes: p.dirty@[id]@ }]
        } else {
            Seq::empty()
        }
}

/// The write of a page that belongs to the file itself, dirty or not.
pub open spec fn resident_op(p: FilePager) -> spec_fn(u32) -> Seq<Op> {
    |id: u32|
        if 1 <= id && p.tops(id) {
            seq![p.raw_op(id)]
        } else {
            Seq::empty()
        }
}

/// The write of any page.
pub open spec fn every_op(p: FilePager) -> spec_fn(u32) -> Seq<Op> {
    |id: u32|
        if 1 <= id {
            seq![p.raw_op(id)]
        } else {
            Seq::empty()
        }
}

/// The bytes behind the last page: which base pages have been copied into the file.
pub open spec fn flag_bytes(p: FilePager) -> Option<Seq<u8>> {
    if p.meta.base_offset > 0 && p.base is Some {
        Some(packed(p.copied@))
    } else {
        None
    }
}

/// The dirty pages, the flags, then the meta page.
pub open spec fn sync_ops(p: FilePager) -> Seq<Op> {
    gather(dirty_op(p), all_ids()) + closing(
        flag_bytes(p),
        p.meta.num_pages,
        encoded(p.meta@),
        Op::SyncData,
    )
}

/// Every page of the file, the flags, then the meta page.
pub open spec fn flush_ops(p: FilePager) -> Seq<Op> {
    gather(resident_op(p), p.meta.num_pages as nat) + closing(
        flag_bytes(p),
        p.meta.num_pages,
        encoded(p.meta@),
        Op::SyncAll,
    )
}

/// The same tree without a base.
pub open spec fn standalone(m: MetaModel) -> MetaModel {
    MetaModel { base_offset: 0, base_path: None, ..m }
}

/// Every page, wherever it is, then a meta page without a base.
pub open spec fn snapshot_ops(p: FilePager) -> Seq<Op> {
    gather(every_op(p), p.meta.num_pages as nat) + seq![
        Op::Write { offset: 0, bytes: encoded(standalone(p.meta@)) },
        Op::SyncAll,
    ]
}

/// `q` is `p` with no page of its own in memory.
pub open spec fn after_sync(p: FilePager, q: FilePager) -> bool {
    &&& q.meta == p.meta
    &&& q.level == p.level
    &&& q.base == p.base
    &&& q.copied@ == p.copied@
    &&& q.dirty@ == Map::<u32, Page>::empty()
    &&& q.clean@ == Map::<u32, Page>::empty()
}

/// Keys that a map hands out in increasing order are ascending.
proof fn lemma_ascending(keys: Seq<u32>)
    requires
        increasing_seq(keys),
    ensures
        forall|i: int, j: int| 0 <= i < j < keys.len() ==> #[trigger] keys[i] < #[trigger] keys[j],
{
    broadcast use group_btree_axioms;

    assert forall|i: int, j: int| 0 <= i < j < keys.len() implies #[trigger] keys[i]
        < #[trigger] keys[j] by {
        assert(keys[i].cmp_spec(&keys[j]) is Less);
    }
}

/// Where page `id` starts in a file.
pub fn page_offset(id: u32) -> (offset: u64)
    ensures
        offset == id * PAGE_SIZE,
{
    assert(id * PAGE_SIZE <= 0xffff_ffff * PAGE_SIZE);
    id as u64 * PAGE_SIZE as u64
}

/// A write of `bytes` at page `id`.
fn page_write(id: u32, bytes: Vec<u8>) -> (op: FileOp)
    ensures
        op@ == (Op::Write { offset: id * PAGE_SIZE, bytes: bytes@ }),
{
    FileOp::Write { offset: page_offset(id), bytes }
}

impl FilePager {
    /// The operation that writes page `id` as it is now: its bytes, where they are dirty, or
    /// else a copy from the file that holds it.
    pub open spec fn raw_op(&self, id: u32) -> Op
        decreases self,
    {
        if self.tops(id) {
            if self.dirty@.contains_key(id) {
                Op::Write { offset: id * PAGE_SIZE, bytes: self.dirty@[id]@ }
            } else {
                Op::Copy { level: self.level as int, offset: id * PAGE_SIZE }
            }
        } else {
            match self.base {
                Some(b) => b.raw_op(id),
                None => Op::Copy { level: self.level as int, offset: id * PAGE_SIZE },
            }
        }
    }

    /// The operation for a page writes or copies it at its place.
    pub proof fn lemma_raw_kind(&self, id: u32)
        ensures
            self.raw_op(id) is Write || self.raw_op(id) is Copy,
            self.raw_op(id) is Write ==> self.raw_op(id)->Write_offset == 8192 * id,
            self.raw_op(id) is Copy ==> self.raw_op(id)->Copy_offset == 8192 * id,
        decreases self,
    {
        if !self.tops(id) {
            if let Some(b) = self.base {
                b.lemma_raw_kind(id);
            }
        }
    }

    /// The operation that writes page `id` as it is now, resolving the overlay chain.
    fn load_raw(&self, id: u32) -> (op: FileOp)
        requires
            self.wf(),
        ensures
            op@ == self.raw_op(id),
        decreases self,
    {
        broadcast use group_btree_axioms;

        if self.in_top(id) {
            match self.dirty.get(&id) {
                Some(page) => page_write(id, slice_to_vec(page.as_bytes().as_slice())),
                None => FileOp::Copy { level: self.level, offset: page_offset(id) },
            }
        } else {
            match &self.base {
                Some(b) => b.load_raw(id),
                None => FileOp::Copy { level: self.level, offset: page_offset(id) },
            }
        }
    }

    /// The write of the flags, where the file has a base.
    fn write_bitmap(&self, plan: &mut Vec<FileOp>)
        requires
            self.wf(),
        ensures
            ops_view(final(plan)@) == ops_view(old(plan)@) + match flag_bytes(*self) {
                Some(bytes) => seq![
                    Op::Write { offset: self.meta.num_pages * PAGE_SIZE, bytes },
                ],
                None => Seq::empty(),
            },
    {
        if self.meta.base_offset > 0 && self.base.is_some() {
            let bytes: Vec<u8> = pack_bits(self.copied.as_slice());
            plan.push(page_write(self.meta.num_pages, bytes));
        }
        assert(ops_view(plan@) =~= ops_view(old(plan)@) + match flag_bytes(*self) {
            Some(bytes) => seq![Op::Write { offset: self.meta.num_pages * PAGE_SIZE, bytes }],
            None => Seq::empty(),
        });
    }

    /// The bytes of the meta page.
    pub fn encode_meta(&self) -> (buf: Vec<u8>)
        requires
            path_fits(self.meta@.base_path),
        ensures
            buf@ == encoded(self.meta@),
    {
        self.meta.encode()
    }

    /// Flushes dirty pages, the copied bitmap, then the meta page (with fsyncs).
    pub fn sync(&self) -> (plan: Vec<FileOp>)
        requires
            self.wf(),
            path_fits(self.meta@.base_path),
        ensures
            ops_view(plan@) == sync_ops(*self),
            plan@.len() >= 3,
            plan@[plan@.len() - 1] is SyncData,
            plan@[plan@.len() - 3] is SyncData,
            ({
                let w = plan@[plan@.len() - 2];
                let b = w->bytes@;
                &&& w is Write && w->Write_offset == 0 && b.len() == 8192
                &&& b[0] == 83 && b[1] == 73 && b[2] == 77 && b[3] == 80
                &&& b[4] == 76 && b[5] == 69 && b[6] == 68 && b[7] == 66
                &&& b[8] + 256 * b[9] + 65536 * b[10] + 16777216 * b[11] == self.meta.root
                &&& b[12] + 256 * b[13] + 65536 * b[14] + 16777216 * b[15] == self.meta.num_pages
                &&& b[16] + 256 * b[17] + 65536 * b[18] + 16777216 * b[19] == self.meta.height
                &&& b[20] + 256 * b[21] + 65536 * b[22] + 16777216 * b[23] == self.meta.base_offset
            }),
            forall|i: int| 0 <= i < plan@.len() - 3 ==> #[trigger] plan@[i] is Write,
            forall|id: u32| #[trigger]
                self.dirty@.contains_key(id) ==> exists|i: int|
                    0 <= i < plan@.len() - 3 && (#[trigger] plan@[i])->Write_offset == 8192 * id
                        && plan@[i]->bytes@ == self.dirty@[id]@,
    {
        let mut plan: Vec<FileOp> = self.dirty_writes();
        self.write_bitmap(&mut plan);
        let ghost before = ops_view(plan@);
        plan.push(FileOp::SyncData);
        plan.push(page_write(0, self.encode_meta()));
        plan.push(FileOp::SyncData);
        assert(ops_view(plan@) =~= before + seq![
            Op::SyncData,
            Op::Write { offset: 0, bytes: encoded(self.meta@) },
            Op::SyncData,
        ]);
        assert(ops_view(plan@) =~= sync_ops(*self));
        proof {
            let ops = sync_ops(*self);
            law_sync_order(*self);
            law_meta_bytes(self.meta@);
            assert forall|i: int| 0 <= i < plan@.len() implies (#[trigger] plan@[i])@ == ops[i] by {
                assert(ops_view(plan@)[i] == plan@[i]@);
            }
            assert forall|i: int| 0 <= i < plan@.len() - 3 implies #[trigger] plan@[i] is Write by {
                assert(plan@[i]@ == ops[i]);
                assert(ops[i] is Write);
            }
            assert forall|id: u32| #[trigger] self.dirty@.contains_key(id) implies exists|i: int|
                0 <= i < plan@.len() - 3 && (#[trigger] plan@[i])->Write_offset == 8192 * id
                    && plan@[i]->bytes@ == self.dirty@[id]@ by {
                let i = choose|i: int|
                    0 <= i < ops.len() - 3 && #[trigger] ops[i] == (Op::Write {
                        offset: 8192 * id,
                        bytes: self.dirty@[id]@,
                    });
                assert(plan@[i]@ == ops[i]);
            }
        }
        plan
    }

    /// The writes of the dirty pages.
    #[verifier::spinoff_prover]
    #[verifier::rlimit(60)]
    fn dirty_writes(&self) -> (plan: Vec<FileOp>)
        requires
            self.wf(),
        ensures
            ops_view(plan@) == gather(dirty_op(*self), all_ids()),
    {
        broadcast use group_btree_axioms;

        let ghost f = dirty_op(*self);
        let mut plan: Vec<FileOp> = Vec::new();
        let ghost mut done: nat = 0;
        assert(ops_view(plan@) =~= gather(f, 0));
        let items = self.dirty.iter();
        let ghost all = items.remaining();
        proof {
            let keys = all.map_values(|kv: (&u32, &Page)| *kv.0);
            lemma_ascending(keys);
            assert forall|i: int, j: int| 0 <= i < j < all.len() implies *(#[trigger] all[i]).0
                < *(#[trigger] all[j]).0 by {
                assert(keys[i] == *all[i].0);
                assert(keys[j] == *all[j].0);
            }
            assert forall|id: u32| #[trigger] self.dirty@.contains_key(id) implies exists|i: int|
                0 <= i < all.len() && *(#[trigger] all[i]).0 == id by {
                assert(all.contains((&id, &self.dirty@[id])));
            }
        }
        for entry in it: items
            invariant
                f == dirty_op(*self),
                all == it.seq(),
                done <= all_ids(),
                ops_view(plan@) == gather(f, done),
                forall|i: int, j: int|
                    0 <= i < j < all.len() ==> *(#[trigger] all[i]).0 < *(#[trigger] all[j]).0,
                forall|id: u32| #[trigger]
                    self.dirty@.contains_key(id) ==> exists|i: int|
                        0 <= i < all.len() && *(#[trigger] all[i]).0 == id,
                forall|i: int|
                    0 <= i < all.len() ==> self.dirty@.contains_key(*(#[trigger] all[i]).0)
                        && self.dirty@[*all[i].0] == *all[i].1,
                forall|i: int| 0 <= i < it.index() ==> *(#[trigger] all[i]).0 < done,
                forall|i: int| it.index() <= i < all.len() ==> *(#[trigger] all[i]).0 >= done,
        {
            let id: u32 = *entry.0;
            let page: &Page = entry.1;
            let ghost before = ops_view(plan@);
            plan.push(page_write(id, slice_to_vec(page.as_bytes().as_slice())));
            proof {
                assert forall|x: u32| done <= x < id implies (#[trigger] f(x)).len() == 0 by {
                    if self.dirty@.contains_key(x) {
                        let i = choose|i: int| 0 <= i < all.len() && *(#[trigger] all[i]).0 == x;
                        assert(*all[it.index()].0 == id);
                    }
                }
                lemma_gather_gap(f, done, id as nat);
                assert(ops_view(plan@) =~= before + f(id));
                done = (id + 1) as nat;
            }
        }
        proof {
            assert forall|x: u32| done <= x implies (#[trigger] f(x)).len() == 0 by {
                if self.dirty@.contains_key(x) {
                    let i = choose|i: int| 0 <= i < all.len() && *(#[trigger] all[i]).0 == x;
                }
            }
            lemma_gather_gap(f, done, all_ids());
        }
        plan
    }

    /// Force-rewrites every resident page (not just dirty ones) and fsyncs.
    pub fn flush(&self) -> (plan: Vec<FileOp>)
        requires
            self.wf(),
            path_fits(self.meta@.base_path),
        ensures
            ops_view(plan@) == flush_ops(*self),
            plan@.len() >= 3,
            plan@[plan@.len() - 1] is SyncAll,
            plan@[plan@.len() - 3] is SyncAll,
            ({
                let w = plan@[plan@.len() - 2];
                let b = w->bytes@;
                &&& w is Write && w->Write_offset == 0 && b.len() == 8192
                &&& b[0] == 83 && b[1] == 73 && b[2] == 77 && b[3] == 80
                &&& b[4] == 76 && b[5] == 69 && b[6] == 68 && b[7] == 66
                &&& b[8] + 256 * b[9] + 65536 * b[10] + 16777216 * b[11] == self.meta.root
                &&& b[12] + 256 * b[13] + 65536 * b[14] + 16777216 * b[15] == self.meta.num_pages
                &&& b[16] + 256 * b[17] + 65536 * b[18] + 16777216 * b[19] == self.meta.height
                &&& b[20] + 256 * b[21] + 65536 * b[22] + 16777216 * b[23] == self.meta.base_offset
            }),
            forall|i: int|
                0 <= i < plan@.len() - 3 ==> #[trigger] plan@[i] is Write || plan@[i] is Copy,
            forall|id: u32| #[trigger]
                self.tops(id) && 1 <= id < self.meta.num_pages ==> exists|i: int|
                    0 <= i < plan@.len() - 3 && (if self.dirty@.contains_key(id) {
                        #[trigger] plan@[i] is Write && plan@[i]->Write_offset == 8192 * id
                            && plan@[i]->bytes@ == self.dirty@[id]@
                    } else {
                        plan@[i] is Copy && plan@[i]->Copy_offset == 8192 * id
                            && plan@[i]->level == self.level
                    }),
    {
        let ghost f = resident_op(*self);
        let mut plan: Vec<FileOp> = Vec::new();
        let mut id: u32 = 0;
        assert(ops_view(plan@) =~= gather(f, 0));
        while id < self.meta.num_pages
            invariant
                self.wf(),
                f == resident_op(*self),
                id <= self.meta.num_pages,
                ops_view(plan@) == gather(f, id as nat),
            decreases self.meta.num_pages - id,
        {
            let ghost before = ops_view(plan@);
            if id >= 1 && self.in_top(id) {
                plan.push(self.load_raw(id));
            }
            assert(ops_view(plan@) =~= before + f(id));
            id += 1;
        }
        self.write_bitmap(&mut plan);
        let ghost before = ops_view(plan@);
        plan.push(FileOp::SyncAll);
        plan.push(page_write(0, self.encode_meta()));
        plan.push(FileOp::SyncAll);
        assert(ops_view(plan@) =~= before + seq![
            Op::SyncAll,
            Op::Write { offset: 0, bytes: encoded(self.meta@) },
            Op::SyncAll,
        ]);
        assert(ops_view(plan@) =~= flush_ops(*self));
        proof {
            let ops = flush_ops(*self);
            law_flush_order(*self);
            law_meta_bytes(self.meta@);
            assert forall|i: int| 0 <= i < plan@.len() implies (#[trigger] plan@[i])@ == ops[i] by {
                assert(ops_view(plan@)[i] == plan@[i]@);
            }
            assert forall|i: int| 0 <= i < plan@.len() - 3 implies #[trigger] plan@[i] is Write
                || plan@[i] is Copy by {
                assert(plan@[i]@ == ops[i]);
                assert(ops[i] is Write || ops[i] is Copy);
            }
            assert forall|id: u32| #[trigger]
                self.tops(id) && 1 <= id < self.meta.num_pages implies exists|i: int|
                0 <= i < plan@.len() - 3 && (if self.dirty@.contains_key(id) {
                    #[trigger] plan@[i] is Write && plan@[i]->Write_offset == 8192 * id
                        && plan@[i]->bytes@ == self.dirty@[id]@
                } else {
                    plan@[i] is Copy && plan@[i]->Copy_offset == 8192 * id && plan@[i]->level
                        == self.level
                }) by {
                if self.dirty@.contains_key(id) {
                    let i = choose|i: int|
                        0 <= i < ops.len() - 3 && #[trigger] ops[i] == (Op::Write {
                            offset: 8192 * id,
                            bytes: self.dirty@[id]@,
                        });
                    assert(plan@[i]@ == ops[i]);
                } else {
                    let i = choose|i: int|
                        0 <= i < ops.len() - 3 && #[trigger] ops[i] == (Op::Copy {
                            level: self.level as int,
                            offset: 8192 * id,
                        });
                    assert(plan@[i]@ == ops[i]);
                }
            }
        }
        plan
    }

    /// Writes a complete standalone copy of the whole tree into an empty file, collapsing
    /// the overlay chain so the result has no base dependency.
    pub fn full_snapshot(&self) -> (plan: Vec<FileOp>)
        requires
            self.wf(),
        ensures
            ops_view(plan@) == snapshot_ops(*self),
            plan@.len() >= 2,
            plan@[plan@.len() - 1] is SyncAll,
            ({
                let w = plan@[plan@.len() - 2];
                let b = w->bytes@;
                &&& w is Write && w->Write_offset == 0 && b.len() == 8192
                &&& b[0] == 83 && b[1] == 73 && b[2] == 77 && b[3] == 80
                &&& b[4] == 76 && b[5] == 69 && b[6] == 68 && b[7] == 66
                &&& b[8] + 256 * b[9] + 65536 * b[10] + 16777216 * b[11] == self.meta.root
                &&& b[12] + 256 * b[13] + 65536 * b[14] + 16777216 * b[15] == self.meta.num_pages
                &&& b[16] + 256 * b[17] + 65536 * b[18] + 16777216 * b[19] == self.meta.height
                &&& b[20] + 256 * b[21] + 65536 * b[22] + 16777216 * b[23] == 0
            }),
            forall|i: int| 20 <= i < 8192 ==> #[trigger] plan@[plan@.len() - 2]->bytes@[i] == 0,
            forall|i: int|
                0 <= i < plan@.len() - 2 ==> #[trigger] plan@[i] is Write || plan@[i] is Copy,
    {
        let ghost f = every_op(*self);
        let mut plan: Vec<FileOp> = Vec::new();
        let mut id: u32 = 0;
        assert(ops_view(plan@) =~= gather(f, 0));
        while id < self.meta.num_pages
            invariant
                self.wf(),
                f == every_op(*self),
                id <= self.meta.num_pages,
                ops_view(plan@) == gather(f, id as nat),
            decreases self.meta.num_pages - id,
        {
            let ghost before = ops_view(plan@);
            if id >= 1 {
                plan.push(self.load_raw(id));
            }
            assert(ops_view(plan@) =~= before + f(id));
            id += 1;
        }
        let ghost before = ops_view(plan@);
        let meta: Meta = Meta {
            root: self.meta.root,
            num_pages: self.meta.num_pages,
            height: self.meta.height,
            base_offset: 0,
            base_path: None,
        };
        plan.push(page_write(0, meta.encode()));
        plan.push(FileOp::SyncAll);
        assert(ops_view(plan@) =~= before + seq![
            Op::Write { offset: 0, bytes: encoded(standalone(self.meta@)) },
            Op::SyncAll,
        ]);
        proof {
            let ops = snapshot_ops(*self);
            let b = encoded(standalone(self.meta@));
            law_snapshot_order(*self);
            law_meta_bytes(standalone(self.meta@));
            assert forall|i: int| 0 <= i < plan@.len() implies (#[trigger] plan@[i])@ == ops[i] by {
                assert(ops_view(plan@)[i] == plan@[i]@);
            }
            assert(plan@[plan@.len() - 2]@ == ops[ops.len() - 2]);
            assert(plan@[plan@.len() - 2]->bytes@ == b);
            assert forall|i: int| 20 <= i < 8192 implies #[trigger] plan@[plan@.len()
                - 2]->bytes@[i] == 0 by {
                assert(b[20] == 0 && b[21] == 0 && b[22] == 0 && b[23] == 0);
            }
            assert forall|i: int| 0 <= i < plan@.len() - 2 implies #[trigger] plan@[i] is Write
                || plan@[i] is Copy by {
                assert(plan@[i]@ == ops[i]);
                let id = choose|id: u32|
                    1 <= id < self.meta.num_pages && ops[i] == #[trigger] self.raw_op(id);
                self.lemma_raw_kind(id);
            }
        }
        plan
    }

    /// The operations of a sync or flush were carried out: nothing is dirty any more.
    pub fn synced(&mut self)
        requires
            old(self).wf(),
        ensures
            final(self).wf(),
            after_sync(*old(self), *final(self)),
            final(self).dirty@ == Map::<u32, Page>::empty(),
            final(self).clean@ == Map::<u32, Page>::empty(),
            final(self).meta == old(self).meta,
            final(self).level == old(self).level,
            final(self).base == old(self).base,
            final(self).copied@ == old(self).copied@,
    {
        self.dirty.clear();
        self.clean.clear();
    }
}

} // verus!
