//! Files of pages, and the operations that change them.
//!
//! The files of a database and of the bases that it reads through are numbered from the
//! bottom: file zero reads through no other.

use vstd::prelude::*;

use crate::layout::PAGE_SIZE;

verus! {

/// The bytes of every file, the bottom one first.
pub type Disk = Seq<Seq<u8>>;

/// Number of page ids.
pub open spec fn all_ids() -> nat {
    0x1_0000_0000
}

/// The file holds page `id` to its end.
pub open spec fn has_page(file: Seq<u8>, id: u32) -> bool {
    (id + 1) * PAGE_SIZE <= file.len()
}

/// The bytes of page `id`.
pub open spec fn file_page(file: Seq<u8>, id: u32) -> Seq<u8> {
    file.subrange(id * PAGE_SIZE, (id + 1) * PAGE_SIZE)
}

/// What an operation on a file is.
pub enum Op {
    Write { offset: int, bytes: Seq<u8> },
    Copy { level: int, offset: int },
    SyncData,
    SyncAll,
}

/// An operation on a file.
#[derive(Debug)]
pub enum FileOp {
    /// Write the bytes at the offset.
    Write { offset: u64, bytes: Vec<u8> },
    /// Read the page at the offset of file `level`, and write it at the same offset.
    Copy { level: u32, offset: u64 },
    /// Bring the file's bytes to the disk.
    SyncData,
    /// Bring the file's bytes and its attributes to the disk.
    SyncAll,
}

impl View for FileOp {
    type V = Op;

    open spec fn view(&self) -> Op {
        match self {
            FileOp::Write { offset, bytes } => Op::Write { offset: *offset as int, bytes: bytes@ },
            FileOp::Copy { level, offset } => Op::Copy {
                level: *level as int,
                offset: *offset as int,
            },
            FileOp::SyncData => Op::SyncData,
            FileOp::SyncAll => Op::SyncAll,
        }
    }
}

pub open spec fn ops_view(ops: Seq<FileOp>) -> Seq<Op> {
    ops.map_values(|o: FileOp| o@)
}

/// The file after a write. A gap behind its end is filled with zeros.
pub open spec fn written(file: Seq<u8>, offset: int, bytes: Seq<u8>) -> Seq<u8> {
    Seq::new(
        if file.len() >= offset + bytes.len() {
            file.len()
        } else {
            (offset + bytes.len()) as nat
        },
        |i: int|
            if offset <= i < offset + bytes.len() {
                bytes[i - offset]
            } else if i < file.len() {
                file[i]
            } else {
                0u8
            },
    )
}

/// The bytes that an operation writes.
pub open spec fn op_bytes(op: Op, disk: Disk) -> Seq<u8> {
    match op {
        Op::Write { bytes, .. } => bytes,
        Op::Copy { level, offset } => disk[level].subrange(offset, offset + PAGE_SIZE),
        _ => Seq::empty(),
    }
}

/// The files after an operation on file `target`.
pub open spec fn apply(op: Op, target: int, disk: Disk) -> Disk {
    match op {
        Op::Write { offset, .. } => disk.update(
            target,
            written(disk[target], offset, op_bytes(op, disk)),
        ),
        Op::Copy { offset, .. } => disk.update(
            target,
            written(disk[target], offset, op_bytes(op, disk)),
        ),
        _ => disk,
    }
}

/// The files after operations on file `target`, first to last.
pub open spec fn apply_all(ops: Seq<Op>, target: int, disk: Disk) -> Disk
    decreases ops.len(),
{
    if ops.len() == 0 {
        disk
    } else {
        apply(ops.last(), target, apply_all(ops.drop_last(), target, disk))
    }
}

/// The operations on the pages below `n`, in ascending order of their ids.
pub open spec fn gather(f: spec_fn(u32) -> Seq<Op>, n: nat) -> Seq<Op>
    decreases n,
{
    if n == 0 {
        Seq::empty()
    } else {
        gather(f, (n - 1) as nat) + f((n - 1) as u32)
    }
}

/// The operation writes page `id` as a whole, and what it reads is there.
pub open spec fn writes_page(op: Op, id: u32, disk: Disk) -> bool {
    match op {
        Op::Write { offset, bytes } => offset == id * PAGE_SIZE && bytes.len() == PAGE_SIZE,
        Op::Copy { level, offset } => {
            &&& offset == id * PAGE_SIZE
            &&& 0 <= level < disk.len()
            &&& has_page(disk[level], id)
        },
        _ => false,
    }
}

/// For each page below `n` at most one operation, which writes that page.
pub open spec fn page_ops(f: spec_fn(u32) -> Seq<Op>, n: nat, disk: Disk) -> bool {
    forall|id: u32|
        id < n ==> (#[trigger] f(id)).len() == 0 || f(id).len() == 1 && writes_page(
            f(id)[0],
            id,
            disk,
        )
}

/// `d` differs from `disk` in file `target` only, which has kept its length or grown.
pub open spec fn only(target: int, disk: Disk, d: Disk) -> bool {
    &&& d.len() == disk.len()
    &&& forall|j: int| 0 <= j < d.len() && j != target ==> #[trigger] d[j] == disk[j]
    &&& d[target].len() >= disk[target].len()
}

/// Nothing is gathered between two ids without operations.
pub proof fn lemma_gather_gap(f: spec_fn(u32) -> Seq<Op>, a: nat, b: nat)
    requires
        a <= b <= all_ids(),
        forall|id: u32| a <= id < b ==> (#[trigger] f(id)).len() == 0,
    ensures
        gather(f, a) == gather(f, b),
    decreases b,
{
    if a < b {
        lemma_gather_gap(f, a, (b - 1) as nat);
        assert(f((b - 1) as u32).len() == 0);
        assert(gather(f, b) =~= gather(f, (b - 1) as nat));
    }
}

/// The operation is one of those of a page below `n`.
pub open spec fn of_some_page(f: spec_fn(u32) -> Seq<Op>, n: nat, op: Op) -> bool {
    exists|id: u32| id < n && #[trigger] f(id).contains(op)
}

/// What is gathered are the operations of the pages, each of them.
pub proof fn lemma_gather_each(f: spec_fn(u32) -> Seq<Op>, n: nat)
    requires
        n <= all_ids(),
    ensures
        forall|i: int|
            0 <= i < gather(f, n).len() ==> of_some_page(f, n, #[trigger] gather(f, n)[i]),
        forall|id: u32, op: Op|
            id < n && #[trigger] f(id).contains(op) ==> gather(f, n).contains(op),
    decreases n,
{
    if n > 0 {
        let m = (n - 1) as nat;
        let x = m as u32;
        let g = gather(f, m);
        let h = gather(f, n);
        lemma_gather_each(f, m);
        assert forall|i: int| 0 <= i < h.len() implies of_some_page(f, n, #[trigger] h[i]) by {
            if i < g.len() {
                assert(h[i] == g[i]);
                assert(of_some_page(f, m, g[i]));
                let id = choose|id: u32| id < m && #[trigger] f(id).contains(g[i]);
                assert(id < n && f(id).contains(h[i]));
            } else {
                assert(h[i] == f(x)[i - g.len()]);
                assert(x < n && f(x).contains(h[i]));
            }
        }
        assert forall|id: u32, op: Op| id < n && #[trigger] f(id).contains(op) implies h.contains(
            op,
        ) by {
            if id < m {
                assert(g.contains(op));
                let i = choose|i: int| 0 <= i < g.len() && g[i] == op;
                assert(h[i] == op);
            } else {
                assert(id == x);
                let y = f(x);
                let j = choose|j: int| 0 <= j < y.len() && y[j] == op;
                assert(h[g.len() + j] == op);
            }
        }
    }
}

/// A write of page `id` changes that page alone.
pub proof fn lemma_write_page(file: Seq<u8>, id: u32, bytes: Seq<u8>, x: u32)
    requires
        bytes.len() == PAGE_SIZE,
    ensures
        has_page(written(file, id * PAGE_SIZE, bytes), id),
        x == id ==> file_page(written(file, id * PAGE_SIZE, bytes), x) == bytes,
        x != id && has_page(file, x) ==> has_page(written(file, id * PAGE_SIZE, bytes), x)
            && file_page(written(file, id * PAGE_SIZE, bytes), x) == file_page(file, x),
{
    let w = written(file, id * PAGE_SIZE, bytes);
    if x == id {
        assert(file_page(w, x) =~= bytes);
    } else if has_page(file, x) {
        assert(file_page(w, x) =~= file_page(file, x));
    }
}

/// The pages after the gathered operations.
#[verifier::spinoff_prover]
#[verifier::rlimit(60)]
pub proof fn lemma_gather(f: spec_fn(u32) -> Seq<Op>, n: nat, target: int, disk: Disk)
    requires
        n <= all_ids(),
        0 <= target < disk.len(),
        page_ops(f, n, disk),
    ensures
        only(target, disk, apply_all(gather(f, n), target, disk)),
        forall|id: u32|
            id < n && (#[trigger] f(id)).len() > 0 ==> {
                &&& has_page(apply_all(gather(f, n), target, disk)[target], id)
                &&& file_page(apply_all(gather(f, n), target, disk)[target], id) == op_bytes(
                    f(id)[0],
                    disk,
                )
            },
        forall|id: u32|
            (id >= n || f(id).len() == 0) && #[trigger] has_page(disk[target], id) ==> {
                &&& has_page(apply_all(gather(f, n), target, disk)[target], id)
                &&& file_page(apply_all(gather(f, n), target, disk)[target], id) == file_page(
                    disk[target],
                    id,
                )
            },
    decreases n,
{
    let d2 = apply_all(gather(f, n), target, disk);
    if n > 0 {
        let m = (n - 1) as nat;
        let x = m as u32;
        lemma_gather(f, m, target, disk);
        let d1 = apply_all(gather(f, m), target, disk);
        let g = gather(f, n);
        if f(x).len() == 0 {
            assert(g =~= gather(f, m));
        } else {
            let op = f(x)[0];
            assert(g.drop_last() =~= gather(f, m));
            assert(g.last() == op);
            assert(writes_page(op, x, disk));
            let bytes = op_bytes(op, disk);
            assert(op_bytes(op, d1) == bytes) by {
                match op {
                    Op::Copy { level, offset } => {
                        if level == target {
                            assert(file_page(d1[target], x) == file_page(disk[target], x));
                        } else {
                            assert(d1[level] == disk[level]);
                        }
                    },
                    _ => {},
                }
            }
            assert(bytes.len() == PAGE_SIZE);
            assert(d2 == d1.update(target, written(d1[target], x * PAGE_SIZE, bytes)));
            assert forall|id: u32| id < n && (#[trigger] f(id)).len() > 0 implies {
                &&& has_page(d2[target], id)
                &&& file_page(d2[target], id) == op_bytes(f(id)[0], disk)
            } by {
                lemma_write_page(d1[target], x, bytes, id);
            }
            assert forall|id: u32|
                (id >= n || f(id).len() == 0) && #[trigger] has_page(disk[target], id) implies {
                &&& has_page(d2[target], id)
                &&& file_page(d2[target], id) == file_page(disk[target], id)
            } by {
                assert(id != x && (id >= m || f(id).len() == 0));
                lemma_write_page(d1[target], x, bytes, id);
            }
        }
    }
}

/// Operations after operations.
pub proof fn lemma_apply_concat(a: Seq<Op>, b: Seq<Op>, target: int, disk: Disk)
    ensures
        apply_all(a + b, target, disk) == apply_all(b, target, apply_all(a, target, disk)),
    decreases b.len(),
{
    if b.len() == 0 {
        assert(a + b =~= a);
    } else {
        lemma_apply_concat(a, b.drop_last(), target, disk);
        assert((a + b).drop_last() =~= a + b.drop_last());
    }
}

/// What ends a sync: the flags behind the last page, where there are any, then the meta page.
pub open spec fn closing(flags: Option<Seq<u8>>, num_pages: u32, meta: Seq<u8>, sync: Op) -> Seq<
    Op,
> {
    (match flags {
        Some(bytes) => seq![Op::Write { offset: num_pages * PAGE_SIZE, bytes }],
        None => Seq::empty(),
    }) + seq![sync, Op::Write { offset: 0, bytes: meta }, sync]
}

/// The flags of a file, which stand behind its last page.
pub open spec fn file_flags(file: Seq<u8>, num_pages: u32, len: int) -> Seq<u8> {
    file.subrange(num_pages * PAGE_SIZE, num_pages * PAGE_SIZE + len)
}

/// After the end of a sync the flags and the meta page are in the file, and the pages are as
/// they were.
#[verifier::spinoff_prover]
#[verifier::rlimit(60)]
pub proof fn lemma_closing(
    flags: Option<Seq<u8>>,
    num_pages: u32,
    meta: Seq<u8>,
    sync: Op,
    target: int,
    disk: Disk,
)
    requires
        0 <= target < disk.len(),
        num_pages >= 1,
        meta.len() == PAGE_SIZE,
        sync == Op::SyncData || sync == Op::SyncAll,
    ensures
        ({
            let d = apply_all(closing(flags, num_pages, meta, sync), target, disk);
            &&& only(target, disk, d)
            &&& has_page(d[target], 0)
            &&& file_page(d[target], 0) == meta
            &&& flags matches Some(bytes) ==> {
                &&& d[target].len() >= num_pages * PAGE_SIZE + bytes.len()
                &&& file_flags(d[target], num_pages, bytes.len() as int) == bytes
            }
            &&& forall|id: u32|
                1 <= id < num_pages && #[trigger] has_page(disk[target], id) ==> {
                    &&& has_page(d[target], id)
                    &&& file_page(d[target], id) == file_page(disk[target], id)
                }
        }),
{
    let first = match flags {
        Some(bytes) => seq![Op::Write { offset: num_pages * PAGE_SIZE, bytes }],
        None => Seq::empty(),
    };
    let w = Op::Write { offset: 0, bytes: meta };
    let rest = seq![sync, w, sync];
    let d1 = apply_all(first, target, disk);
    lemma_apply_concat(first, rest, target, disk);
    assert(d1 == match flags {
        Some(bytes) => disk.update(
            target,
            written(disk[target], num_pages * PAGE_SIZE, bytes),
        ),
        None => disk,
    }) by {
        if flags is Some {
            assert(first.drop_last() =~= Seq::<Op>::empty());
            assert(apply_all(first.drop_last(), target, disk) == disk);
        }
    }
    let d2 = apply_all(rest, target, d1);
    assert(d2 == d1.update(target, written(d1[target], 0, meta))) by {
        assert(rest.drop_last() =~= seq![sync, w]);
        assert(rest.drop_last().drop_last() =~= seq![sync]);
        assert(seq![sync].drop_last() =~= Seq::<Op>::empty());
        reveal_with_fuel(apply_all, 4);
    }
    let d = apply_all(closing(flags, num_pages, meta, sync), target, disk);
    assert(d == d2);
    assert(file_page(d[target], 0) =~= meta);
    match flags {
        Some(bytes) => {
            assert(file_flags(d[target], num_pages, bytes.len() as int) =~= bytes);
        },
        None => {},
    }
    assert forall|id: u32| 1 <= id < num_pages && #[trigger] has_page(disk[target], id) implies {
        &&& has_page(d[target], id)
        &&& file_page(d[target], id) == file_page(disk[target], id)
    } by {
        assert(file_page(d[target], id) =~= file_page(disk[target], id));
    }
}

/// Writing what is there already changes nothing.
pub proof fn lemma_written_same(file: Seq<u8>, offset: int, bytes: Seq<u8>)
    requires
        0 <= offset,
        offset + bytes.len() <= file.len(),
        file.subrange(offset, offset + bytes.len()) == bytes,
    ensures
        written(file, offset, bytes) == file,
{
    assert forall|i: int| offset <= i < offset + bytes.len() implies bytes[i - offset]
        == file[i] by {
        assert(file.subrange(offset, offset + bytes.len())[i - offset] == file[i]);
    }
    assert(written(file, offset, bytes) =~= file);
}

/// Copying pages of a file onto themselves changes nothing.
pub proof fn lemma_gather_same(f: spec_fn(u32) -> Seq<Op>, n: nat, target: int, disk: Disk)
    requires
        n <= all_ids(),
        0 <= target < disk.len(),
        forall|id: u32|
            id < n && (#[trigger] f(id)).len() != 0 ==> {
                &&& has_page(disk[target], id)
                &&& f(id) == seq![Op::Copy { level: target, offset: id * PAGE_SIZE }]
            },
    ensures
        apply_all(gather(f, n), target, disk) == disk,
    decreases n,
{
    if n > 0 {
        let m = (n - 1) as nat;
        let x = m as u32;
        lemma_gather_same(f, m, target, disk);
        let g = gather(f, n);
        if f(x).len() == 0 {
            assert(g =~= gather(f, m));
        } else {
            let op = Op::Copy { level: target, offset: x * PAGE_SIZE };
            assert(g.drop_last() =~= gather(f, m));
            assert(g.last() == op);
            lemma_written_same(disk[target], x * PAGE_SIZE, op_bytes(op, disk));
            assert(disk.update(target, disk[target]) =~= disk);
        }
    }
}

/// The end of a sync over a file that it has been brought to already changes nothing.
pub proof fn lemma_closing_same(
    flags: Option<Seq<u8>>,
    num_pages: u32,
    meta: Seq<u8>,
    sync: Op,
    target: int,
    disk: Disk,
)
    requires
        0 <= target < disk.len(),
        sync == Op::SyncData || sync == Op::SyncAll,
        meta.len() == PAGE_SIZE,
        has_page(disk[target], 0),
        file_page(disk[target], 0) == meta,
        flags matches Some(bytes) ==> {
            &&& disk[target].len() >= num_pages * PAGE_SIZE + bytes.len()
            &&& file_flags(disk[target], num_pages, bytes.len() as int) == bytes
        },
    ensures
        apply_all(closing(flags, num_pages, meta, sync), target, disk) == disk,
{
    let file = disk[target];
    let first = match flags {
        Some(bytes) => seq![Op::Write { offset: num_pages * PAGE_SIZE, bytes }],
        None => Seq::empty(),
    };
    let w = Op::Write { offset: 0, bytes: meta };
    let rest = seq![sync, w, sync];
    assert(disk.update(target, file) =~= disk);
    assert(apply_all(first, target, disk) == disk) by {
        if let Some(bytes) = flags {
            lemma_written_same(file, num_pages * PAGE_SIZE, bytes);
            assert(first.drop_last() =~= Seq::<Op>::empty());
            assert(apply_all(first.drop_last(), target, disk) == disk);
        }
    }
    lemma_apply_concat(first, rest, target, disk);
    lemma_written_same(file, 0, meta);
    assert(apply_all(rest, target, disk) == disk) by {
        assert(rest.drop_last() =~= seq![sync, w]);
        assert(rest.drop_last().drop_last() =~= seq![sync]);
        assert(seq![sync].drop_last() =~= Seq::<Op>::empty());
        reveal_with_fuel(apply_all, 4);
    }
}

} // verus!
