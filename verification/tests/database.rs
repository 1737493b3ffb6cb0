//! The database on files in memory: reopening, checkpoints, overlays, flushes and snapshots.

use std::cell::RefCell;
use std::collections::BTreeMap;
use std::rc::Rc;

use btree::db::Db as Tree;
use btree::error::{Error, Fault};
use btree::files::FileOp;
use btree::layout::PAGE_SIZE;
use btree::meta::{path_in_page, Meta};
use btree::pager::{Fetch, FilePager, PageRequest};

/// Files by number, and the names that link to them.
struct Files {
    names: BTreeMap<String, usize>,
    nodes: Vec<Vec<u8>>,
}

type Shared = Rc<RefCell<Files>>;

/// A name in a directory.
#[derive(Clone)]
struct Place {
    files: Shared,
    name: String,
}

impl AsRef<Place> for Place {
    fn as_ref(&self) -> &Place {
        self
    }
}

impl Place {
    fn node(&self) -> Option<usize> {
        self.files.borrow().names.get(&self.name).copied()
    }

    /// A new empty file, unless the name is taken.
    fn create_new(&self) -> Option<usize> {
        if self.node().is_some() {
            return None;
        }
        let mut files = self.files.borrow_mut();
        let node = files.nodes.len();
        files.nodes.push(Vec::new());
        files.names.insert(self.name.clone(), node);
        Some(node)
    }

    fn read(&self) -> Vec<u8> {
        let node = self.node().unwrap();
        let bytes = self.files.borrow().nodes[node].clone();
        bytes
    }
}

struct TmpDir(Shared);

impl TmpDir {
    fn new() -> TmpDir {
        TmpDir(Rc::new(RefCell::new(Files { names: BTreeMap::new(), nodes: Vec::new() })))
    }
    fn path(&self, name: &str) -> Place {
        Place { files: self.0.clone(), name: name.to_string() }
    }
    fn remove_all(&self) {
        self.0.borrow_mut().names.clear();
        for node in self.0.borrow_mut().nodes.iter_mut() {
            node.clear();
        }
    }
}

/// One file that several handles open in turn.
struct TmpDb(TmpDir);

impl TmpDb {
    fn new() -> TmpDb {
        TmpDb(TmpDir::new())
    }
    fn open(&self) -> Db {
        Db::open(self.0.path("test.db")).unwrap()
    }
}

fn write_at(file: &mut Vec<u8>, offset: u64, bytes: &[u8]) {
    let start = offset as usize;
    let end = start + bytes.len();
    if file.len() < end {
        file.resize(end, 0);
    }
    file[start..end].copy_from_slice(bytes);
}

/// Carries out a plan on file `target`; `levels` are the files that copies come from.
fn carry_out(plan: Vec<FileOp>, source: &Shared, levels: &[usize], out: &Shared, target: usize) {
    for op in plan {
        match op {
            FileOp::Write { offset, bytes } => {
                write_at(&mut out.borrow_mut().nodes[target], offset, &bytes);
            }
            FileOp::Copy { level, offset } => {
                let start = offset as usize;
                let page =
                    source.borrow().nodes[levels[level as usize]][start..start + PAGE_SIZE].to_vec();
                write_at(&mut out.borrow_mut().nodes[target], offset, &page);
            }
            FileOp::SyncData | FileOp::SyncAll => {}
        }
    }
}

fn open_pager(files: &Shared, node: usize, writable: bool) -> Result<(FilePager, Vec<usize>), Error> {
    let len = files.borrow().nodes[node].len() as u64;
    if let Some(pager) = FilePager::open_inner(len, writable) {
        return Ok((pager, vec![node]));
    }
    let buf = files.borrow().nodes[node][..PAGE_SIZE].to_vec();
    assert!(path_in_page(&buf));
    let meta = Meta::decode(&buf)?;
    match meta.base_path.clone() {
        Some(path) => {
            let base_node = files.borrow().names[&path];
            let (base, mut levels) = open_pager(files, base_node, false)?;
            let start = meta.flags_offset() as usize;
            let flags = files.borrow().nodes[node][start..start + meta.flags_len()].to_vec();
            levels.push(node);
            Ok((FilePager::resume(meta, Some(base), &flags), levels))
        }
        None => Ok((FilePager::resume(meta, None, &[]), vec![node])),
    }
}

/// A database and the files below it, the bottom one first.
struct Db {
    files: Shared,
    levels: Vec<usize>,
    tree: RefCell<Tree>,
}

impl Db {
    fn open<P: AsRef<Place>>(place: P) -> Result<Db, Error> {
        let place = place.as_ref();
        let node = match place.node() {
            Some(node) => node,
            None => place.create_new().unwrap(),
        };
        let fresh = place.files.borrow().nodes[node].is_empty();
        let (pager, levels) = open_pager(&place.files, node, true)?;
        let mut db =
            Db { files: place.files.clone(), levels, tree: RefCell::new(Tree::open(pager)) };
        if fresh {
            db.sync()?;
        }
        Ok(db)
    }

    fn open_overlay<P: AsRef<Place>, Q: AsRef<Place>>(top: P, base: Q) -> Result<Db, Error> {
        let (top, base) = (top.as_ref(), base.as_ref());
        let (pager, mut levels) = open_pager(&base.files, base.node().unwrap(), false)?;
        levels.push(top.create_new().unwrap());
        let tree = Tree::open_overlay(pager, base.name.clone());
        let mut db = Db { files: top.files.clone(), levels, tree: RefCell::new(tree) };
        db.sync()?;
        Ok(db)
    }

    fn own(&self) -> usize {
        *self.levels.last().unwrap()
    }

    fn fetch(&self, m: PageRequest) -> Result<(), Error> {
        let start = m.id as usize * PAGE_SIZE;
        let node = self.levels[m.level as usize];
        let page = self.files.borrow().nodes[node][start..start + PAGE_SIZE].to_vec();
        self.tree.borrow_mut().supply(m.id, &page);
        Ok(())
    }

    fn get(&self, key: &[u8]) -> Result<Option<Vec<u8>>, Error> {
        loop {
            let r = self.tree.borrow().get(key)?;
            match r {
                Fetch::Ready(v) => return Ok(v),
                Fetch::Missing(m) => self.fetch(m)?,
            }
        }
    }

    fn scan(
        &self,
        lower: Option<&[u8]>,
        upper: Option<&[u8]>,
    ) -> Result<Vec<(Vec<u8>, Vec<u8>)>, Error> {
        loop {
            let r = self.tree.borrow().scan(lower, upper)?;
            match r {
                Fetch::Ready(v) => return Ok(v),
                Fetch::Missing(m) => self.fetch(m)?,
            }
        }
    }

    fn insert(&mut self, key: &[u8], value: &[u8]) -> Result<(), Error> {
        assert!(self.tree.borrow().has_room_for(key, value));
        loop {
            let r = self.tree.borrow_mut().insert(key, value)?;
            match r {
                Fetch::Ready(()) => return Ok(()),
                Fetch::Missing(m) => self.fetch(m)?,
            }
        }
    }

    fn delete(&mut self, key: &[u8]) -> Result<bool, Error> {
        loop {
            let r = self.tree.borrow_mut().delete(key)?;
            match r {
                Fetch::Ready(v) => return Ok(v),
                Fetch::Missing(m) => self.fetch(m)?,
            }
        }
    }

    fn run(&mut self, plan: Vec<FileOp>) {
        carry_out(plan, &self.files, &self.levels, &self.files, self.own());
        self.tree.borrow_mut().synced();
    }

    fn sync(&mut self) -> Result<(), Error> {
        let plan = self.tree.borrow().sync()?;
        self.run(plan);
        Ok(())
    }

    fn flush(&mut self) -> Result<(), Error> {
        let plan = self.tree.borrow().flush()?;
        self.run(plan);
        Ok(())
    }

    fn checkpoint<P: AsRef<Place>>(&mut self, snapshot: P) -> Result<(), &'static str> {
        let plan = self.tree.borrow().checkpoint();
        self.run(plan);
        let snapshot = snapshot.as_ref();
        if snapshot.node().is_some() {
            return Err("the name is taken");
        }
        self.files.borrow_mut().names.insert(snapshot.name.clone(), self.own());
        self.tree.borrow_mut().freeze();
        Ok(())
    }

    fn full_snapshot<P: AsRef<Place>>(&self, snapshot: P) -> Result<(), &'static str> {
        let snapshot = snapshot.as_ref();
        let node = match snapshot.create_new() {
            Some(node) => node,
            None => return Err("the name is taken"),
        };
        let plan = self.tree.borrow().full_snapshot();
        carry_out(plan, &self.files, &self.levels, &snapshot.files, node);
        Ok(())
    }

    fn is_frozen(&self) -> bool {
        self.tree.borrow().is_frozen()
    }
}

impl Drop for Db {
    fn drop(&mut self) {
        if !self.is_frozen() {
            let _ = self.sync();
        }
    }
}

fn fill(db: &mut Db, range: std::ops::Range<u32>, val: &str) {
    for i in range {
        db.insert(format!("key{i:06}").as_bytes(), val.as_bytes())
            .unwrap();
    }
}

/// Tiny deterministic xorshift generator.
struct Rng(u64);

impl Rng {
    fn next(&mut self) -> u64 {
        let mut x = self.0;
        x ^= x << 13;
        x ^= x >> 7;
        x ^= x << 17;
        self.0 = x;
        x
    }
    fn below(&mut self, n: u64) -> u64 {
        self.next() % n
    }
}

#[test]
fn basic_put_get_delete() {
    let tmp = TmpDb::new();
    let mut db = tmp.open();

    assert_eq!(db.get(b"missing").unwrap(), None);
    db.insert(b"a", b"1").unwrap();
    db.insert(b"b", b"2").unwrap();
    assert_eq!(db.get(b"a").unwrap().as_deref(), Some(&b"1"[..]));

    // overwrite
    db.insert(b"a", b"11").unwrap();
    assert_eq!(db.get(b"a").unwrap().as_deref(), Some(&b"11"[..]));

    assert!(db.delete(b"a").unwrap());
    assert!(!db.delete(b"a").unwrap());
    assert_eq!(db.get(b"a").unwrap(), None);
    assert_eq!(db.get(b"b").unwrap().as_deref(), Some(&b"2"[..]));
}

#[test]
fn persists_across_reopen() {
    let tmp = TmpDb::new();
    {
        let mut db = tmp.open();
        for i in 0..1000u32 {
            let k = format!("key{i:06}");
            db.insert(k.as_bytes(), format!("val{i}").as_bytes())
                .unwrap();
        }
        // dropped here -> sync to disk
    }
    let db = tmp.open();
    for i in 0..1000u32 {
        let k = format!("key{i:06}");
        assert_eq!(
            db.get(k.as_bytes()).unwrap().as_deref(),
            Some(format!("val{i}").as_bytes())
        );
    }
}

#[test]
fn scan_ranges() {
    let tmp = TmpDb::new();
    let mut db = tmp.open();
    for i in 0..100u32 {
        let k = format!("{i:03}");
        db.insert(k.as_bytes(), b"x").unwrap();
    }
    // full scan is sorted and complete
    let all = db.scan(None, None).unwrap();
    assert_eq!(all.len(), 100);
    assert!(all.windows(2).all(|w| w[0].0 < w[1].0));

    // [010, 020)
    let mid = db.scan(Some(b"010"), Some(b"020")).unwrap();
    let keys: Vec<String> = mid
        .iter()
        .map(|(k, _)| String::from_utf8(k.clone()).unwrap())
        .collect();
    assert_eq!(
        keys,
        (10..20).map(|i| format!("{i:03}")).collect::<Vec<_>>()
    );
}

#[test]
fn entry_too_large_is_rejected() {
    let tmp = TmpDb::new();
    let mut db = tmp.open();
    let huge = vec![0u8; 4096];
    match db.insert(b"k", &huge) {
        Err(Error::EntryTooLarge { .. }) => {}
        other => panic!("expected EntryTooLarge, got {other:?}"),
    }
}

#[test]
fn deletes_shrink_height_and_reclaim() {
    let tmp = TmpDb::new();
    let mut db = tmp.open();
    // Enough entries to build several levels.
    for i in 0..5000u32 {
        let k = format!("{i:08}");
        db.insert(k.as_bytes(), b"payload-payload-payload").unwrap();
    }
    // Delete almost everything; tree must stay correct and collapse.
    for i in 0..4990u32 {
        let k = format!("{i:08}");
        assert!(db.delete(k.as_bytes()).unwrap(), "delete {i}");
    }
    let remaining = db.scan(None, None).unwrap();
    assert_eq!(remaining.len(), 10);
    for (i, (k, _)) in (4990..5000u32).zip(remaining) {
        assert_eq!(k, format!("{i:08}").into_bytes());
    }
}

#[test]
fn randomized_against_oracle() {
    let tmp = TmpDb::new();
    let mut db = tmp.open();
    let mut oracle: BTreeMap<Vec<u8>, Vec<u8>> = BTreeMap::new();
    let mut rng = Rng(0x9e3779b97f4a7c15);

    let key_space = 3000u64;
    for step in 0..40_000u64 {
        let kn = rng.below(key_space);
        // Vary key length so pages hold mixed-size entries.
        let key = if kn % 7 == 0 {
            format!("k{kn:010}-{}", "x".repeat((kn % 40) as usize)).into_bytes()
        } else {
            format!("k{kn:05}").into_bytes()
        };

        match rng.below(3) {
            0 | 1 => {
                let vlen = (rng.below(180)) as usize;
                let val = vec![(kn & 0xff) as u8; vlen];
                db.insert(&key, &val).unwrap();
                oracle.insert(key, val);
            }
            _ => {
                let existed_db = db.delete(&key).unwrap();
                let existed_oracle = oracle.remove(&key).is_some();
                assert_eq!(existed_db, existed_oracle, "delete mismatch at step {step}");
            }
        }

        // Spot-check a few random keys against the oracle every so often.
        if step % 500 == 0 {
            for _ in 0..50 {
                let probe = format!("k{:05}", rng.below(key_space)).into_bytes();
                assert_eq!(
                    db.get(&probe).unwrap(),
                    oracle.get(&probe).cloned(),
                    "get mismatch at step {step}"
                );
            }
        }

        // Periodically reopen from disk and verify the full contents.
        if step % 9000 == 8999 {
            db.sync().unwrap();
            drop(db);
            db = tmp.open();
            let scanned = db.scan(None, None).unwrap();
            let expected: Vec<(Vec<u8>, Vec<u8>)> =
                oracle.iter().map(|(k, v)| (k.clone(), v.clone())).collect();
            assert_eq!(
                scanned, expected,
                "full scan mismatch after reopen at step {step}"
            );
        }
    }

    // Final full comparison.
    let scanned = db.scan(None, None).unwrap();
    let expected: Vec<(Vec<u8>, Vec<u8>)> =
        oracle.iter().map(|(k, v)| (k.clone(), v.clone())).collect();
    assert_eq!(scanned, expected, "final full scan mismatch");
}

#[test]
fn data_survives_graceful_shutdown() {
    let tmp = TmpDb::new();

    // Session 1: write, then shut down by dropping the handle.
    {
        let mut db = tmp.open();
        db.insert(b"name", b"helios").unwrap();
        db.insert(b"kind", b"btree").unwrap();
        db.insert(b"wal", b"none").unwrap();
    } // <- shutdown: Drop flushes to disk

    // Session 2: a brand new handle reads it back from the file.
    let db = tmp.open();
    assert_eq!(db.get(b"name").unwrap().as_deref(), Some(&b"helios"[..]));
    assert_eq!(db.get(b"kind").unwrap().as_deref(), Some(&b"btree"[..]));
    assert_eq!(db.get(b"wal").unwrap().as_deref(), Some(&b"none"[..]));
    assert_eq!(db.scan(None, None).unwrap().len(), 3);
}

#[test]
fn explicit_sync_is_visible_to_a_new_handle() {
    let tmp = TmpDb::new();

    let mut writer = tmp.open();
    for i in 0..200u32 {
        writer.insert(format!("k{i:04}").as_bytes(), b"v").unwrap();
    }
    writer.sync().unwrap(); // durable now, without dropping `writer`

    // Open a second handle over the same file while the first is still alive.
    let reader = tmp.open();
    assert_eq!(reader.scan(None, None).unwrap().len(), 200);
    assert_eq!(reader.get(b"k0123").unwrap().as_deref(), Some(&b"v"[..]));
}

#[test]
fn data_accumulates_across_many_restarts() {
    let tmp = TmpDb::new();

    // Five separate sessions, each adding its own batch and shutting down.
    for session in 0..5u32 {
        let mut db = tmp.open();
        for i in 0..1000u32 {
            let key = format!("s{session}-{i:04}");
            db.insert(key.as_bytes(), format!("session{session}").as_bytes())
                .unwrap();
        }
    }

    // Final session: every batch from every prior session must be present.
    let db = tmp.open();
    assert_eq!(db.scan(None, None).unwrap().len(), 5 * 1000);
    for session in 0..5u32 {
        for i in (0..1000u32).step_by(97) {
            let key = format!("s{session}-{i:04}");
            assert_eq!(
                db.get(key.as_bytes()).unwrap().as_deref(),
                Some(format!("session{session}").as_bytes()),
                "missing {key} after restarts"
            );
        }
    }
}

#[test]
fn deletes_persist_across_restart() {
    let tmp = TmpDb::new();

    // Session 1: insert 2000 keys.
    {
        let mut db = tmp.open();
        for i in 0..2000u32 {
            db.insert(format!("{i:05}").as_bytes(), b"x").unwrap();
        }
    }
    // Session 2: delete every even key, then shut down.
    {
        let mut db = tmp.open();
        for i in (0..2000u32).step_by(2) {
            assert!(db.delete(format!("{i:05}").as_bytes()).unwrap());
        }
    }
    // Session 3: deletions stuck; odds remain, evens are gone.
    let db = tmp.open();
    assert_eq!(db.scan(None, None).unwrap().len(), 1000);
    for i in 0..2000u32 {
        let present = db.get(format!("{i:05}").as_bytes()).unwrap().is_some();
        assert_eq!(present, i % 2 == 1, "key {i} wrong presence after restart");
    }
}

#[test]
fn updates_persist_across_restart() {
    let tmp = TmpDb::new();

    {
        let mut db = tmp.open();
        for i in 0..500u32 {
            db.insert(format!("k{i:04}").as_bytes(), b"old").unwrap();
        }
    }
    {
        let mut db = tmp.open();
        for i in (0..500u32).step_by(2) {
            db.insert(format!("k{i:04}").as_bytes(), b"new").unwrap();
        }
    }
    let db = tmp.open();
    for i in 0..500u32 {
        let want: &[u8] = if i % 2 == 0 { b"new" } else { b"old" };
        assert_eq!(
            db.get(format!("k{i:04}").as_bytes()).unwrap().as_deref(),
            Some(want),
            "key {i} has wrong value after restart"
        );
    }
}

#[test]
fn multi_level_tree_survives_restart() {
    let tmp = TmpDb::new();
    let n = 20_000u32;

    // Big enough to force a tree several levels deep (internal pages + leaf
    // chain), so the restart exercises the whole on-disk structure.
    {
        let mut db = tmp.open();
        for i in 0..n {
            let key = format!("key-{i:08}");
            let val = format!("value-for-{i}");
            db.insert(key.as_bytes(), val.as_bytes()).unwrap();
        }
    }

    let db = tmp.open();

    // Full ordered scan is complete and sorted.
    let all = db.scan(None, None).unwrap();
    assert_eq!(all.len(), n as usize);
    assert!(all.windows(2).all(|w| w[0].0 < w[1].0), "scan not sorted");

    // Random-ish point lookups all resolve to the right value.
    for i in (0..n).step_by(331) {
        let key = format!("key-{i:08}");
        assert_eq!(
            db.get(key.as_bytes()).unwrap().as_deref(),
            Some(format!("value-for-{i}").as_bytes()),
            "lookup {i} failed after restart"
        );
    }

    // A bounded range comes back correct after restart too.
    let lo = b"key-00010000";
    let hi = b"key-00010010";
    let range = db.scan(Some(lo), Some(hi)).unwrap();
    let got: Vec<u32> = range
        .iter()
        .map(|(k, _)| String::from_utf8_lossy(&k[4..]).parse().unwrap())
        .collect();
    assert_eq!(got, (10000..10010).collect::<Vec<u32>>());
}

#[test]
fn unsynced_writes_are_lost_but_synced_ones_persist() {
    // Documents the durability boundary: with no WAL, only data that reached
    // disk via `sync` (or a graceful drop) survives a crash. We simulate a crash
    // by leaking the handle so its `Drop`/flush never runs.
    let tmp = TmpDb::new();

    let mut db = tmp.open();
    db.insert(b"durable", b"1").unwrap();
    db.sync().unwrap(); // this reaches disk

    db.insert(b"volatile", b"2").unwrap(); // buffered only, never synced

    // "Crash": skip Drop (and therefore the flush) entirely.
    std::mem::forget(db);

    let db = tmp.open();
    assert_eq!(
        db.get(b"durable").unwrap().as_deref(),
        Some(&b"1"[..]),
        "synced write must survive the crash"
    );
    assert_eq!(
        db.get(b"volatile").unwrap(),
        None,
        "unsynced write must not survive the crash"
    );
}

#[test]
fn checkpoint_freezes_the_database() {
    let tmp = TmpDir::new();
    let main = tmp.path("main.db");
    let snap = tmp.path("snap.db");

    let mut db = Db::open(&main).unwrap();
    fill(&mut db, 0..100, "v0");
    db.checkpoint(&snap).unwrap();

    assert!(db.is_frozen());
    // Reads still work after freezing.
    assert_eq!(db.get(b"key000050").unwrap().as_deref(), Some(&b"v0"[..]));
    // Writes are refused.
    assert!(matches!(db.insert(b"x", b"y"), Err(Error::Frozen)));
    assert!(matches!(db.delete(b"key000000"), Err(Error::Frozen)));
    assert!(matches!(db.sync(), Err(Error::Frozen)));
}

#[test]
fn overlay_reads_base_and_leaves_snapshot_untouched() {
    let tmp = TmpDir::new();
    let main = tmp.path("main.db");
    let snap = tmp.path("snap.db");
    let work = tmp.path("work.db");

    // Build a tree with several pages, then snapshot it.
    {
        let mut db = Db::open(&main).unwrap();
        fill(&mut db, 0..2000, "base");
        db.checkpoint(&snap).unwrap();
    }
    let snap_before = snap.read();

    // Overlay the snapshot and mutate heavily.
    {
        let mut ov = Db::open_overlay(&work, &snap).unwrap();
        // Read-through: every base key is visible before we touch anything.
        for i in (0..2000).step_by(53) {
            assert_eq!(
                ov.get(format!("key{i:06}").as_bytes()).unwrap().as_deref(),
                Some(&b"base"[..]),
                "read-through failed for {i}"
            );
        }
        // Overwrite the first half, delete a slice, and add new keys.
        fill(&mut ov, 0..1000, "edited");
        for i in 1500..1600 {
            assert!(ov.delete(format!("key{i:06}").as_bytes()).unwrap());
        }
        fill(&mut ov, 2000..2500, "fresh");

        // Overlay reflects all changes layered over the base.
        assert_eq!(
            ov.get(b"key000123").unwrap().as_deref(),
            Some(&b"edited"[..])
        );
        assert_eq!(ov.get(b"key001234").unwrap().as_deref(), Some(&b"base"[..]));
        assert_eq!(
            ov.get(b"key002345").unwrap().as_deref(),
            Some(&b"fresh"[..])
        );
        assert_eq!(ov.get(b"key001550").unwrap(), None);
    }

    // The snapshot file must be byte-for-byte identical: the overlay never wrote it.
    let snap_after = snap.read();
    assert_eq!(snap_before, snap_after, "overlay mutated the snapshot");

    // A fresh overlay over the snapshot still sees the pristine base data.
    let check = Db::open_overlay(tmp.path("check.db"), &snap).unwrap();
    assert_eq!(
        check.get(b"key000123").unwrap().as_deref(),
        Some(&b"base"[..])
    );
    assert_eq!(
        check.get(b"key001550").unwrap().as_deref(),
        Some(&b"base"[..])
    );
    assert_eq!(check.scan(None, None).unwrap().len(), 2000);
}

#[test]
fn overlay_persists_across_reopen() {
    let tmp = TmpDir::new();
    let main = tmp.path("main.db");
    let snap = tmp.path("snap.db");
    let work = tmp.path("work.db");

    {
        let mut db = Db::open(&main).unwrap();
        fill(&mut db, 0..1000, "base");
        db.checkpoint(&snap).unwrap();
    }
    // Create overlay, mutate, then close it (flushes copied pages + bitmap).
    {
        let mut ov = Db::open_overlay(&work, &snap).unwrap();
        fill(&mut ov, 0..200, "edited");
        fill(&mut ov, 1000..1100, "fresh");
    }
    // Reopen the overlay by path; it must rediscover its base and copied pages.
    let ov = Db::open(&work).unwrap();
    assert_eq!(
        ov.get(b"key000050").unwrap().as_deref(),
        Some(&b"edited"[..])
    ); // copied up
    assert_eq!(ov.get(b"key000500").unwrap().as_deref(), Some(&b"base"[..])); // read-through
    assert_eq!(
        ov.get(b"key001050").unwrap().as_deref(),
        Some(&b"fresh"[..])
    ); // native
    assert_eq!(ov.scan(None, None).unwrap().len(), 1100);
}

#[test]
fn chained_snapshots_resolve_through_the_base_chain() {
    let tmp = TmpDir::new();
    let main = tmp.path("main.db");
    let s1 = tmp.path("s1.db");
    let s2 = tmp.path("s2.db");
    let w1 = tmp.path("w1.db");
    let w2 = tmp.path("w2.db");

    // Layer 0: everything "v0", snapshot to s1.
    {
        let mut db = Db::open(&main).unwrap();
        fill(&mut db, 0..300, "v0");
        db.checkpoint(&s1).unwrap();
    }
    // Layer 1: overlay s1, rewrite the first third to "v1", snapshot to s2.
    {
        let mut o1 = Db::open_overlay(&w1, &s1).unwrap();
        fill(&mut o1, 0..100, "v1");
        o1.checkpoint(&s2).unwrap(); // syncs w1, then hard-links it to s2
    }
    // Layer 2: overlay s2 (which itself overlays s1). Resolution walks the chain.
    let o2 = Db::open_overlay(&w2, &s2).unwrap();
    assert_eq!(o2.get(b"key000050").unwrap().as_deref(), Some(&b"v1"[..])); // from layer 1
    assert_eq!(o2.get(b"key000200").unwrap().as_deref(), Some(&b"v0"[..])); // from layer 0
    assert_eq!(o2.scan(None, None).unwrap().len(), 300);

    // The original snapshot is still pure "v0".
    let base_view = Db::open_overlay(tmp.path("v.db"), &s1).unwrap();
    assert_eq!(
        base_view.get(b"key000050").unwrap().as_deref(),
        Some(&b"v0"[..])
    );
}

#[test]
fn checkpoint_refuses_to_clobber_existing_snapshot() {
    let tmp = TmpDir::new();
    let main = tmp.path("main.db");
    let snap = tmp.path("snap.db");

    let mut db = Db::open(&main).unwrap();
    fill(&mut db, 0..10, "v0");
    db.checkpoint(&snap).unwrap();

    // A second checkpoint to the same path must fail (hard link target exists)
    // rather than silently overwrite the snapshot.
    let mut db2 = Db::open(tmp.path("other.db")).unwrap();
    fill(&mut db2, 0..10, "v0");
    assert!(db2.checkpoint(&snap).is_err());
}

#[test]
fn deep_checkpoint_chain_resolves_every_layer() {
    // checkpoint of a checkpoint of a checkpoint... Each level owns one band of
    // keys; the deepest band exists only in the original base. Reads must walk
    // the whole chain to find the right copy. No flat list of bases is needed:
    // each file points only to its immediate parent.
    let tmp = TmpDir::new();

    // Level 0: 0..500 all "v0".
    {
        let mut db = Db::open(tmp.path("L0.db")).unwrap();
        fill(&mut db, 0..500, "v0");
        db.checkpoint(tmp.path("c0.db")).unwrap();
    }
    // Levels 1..=4: each overlays the previous checkpoint and rewrites its own
    // 100-key band, then checkpoints (except the last).
    for lvl in 1..=4u32 {
        let work = tmp.path(&format!("L{lvl}.db"));
        let base = tmp.path(&format!("c{}.db", lvl - 1));
        let mut ov = Db::open_overlay(&work, &base).unwrap();
        let band = (lvl - 1) * 100..lvl * 100;
        fill(&mut ov, band, &format!("v{lvl}"));
        if lvl < 4 {
            ov.checkpoint(tmp.path(&format!("c{lvl}.db"))).unwrap();
        }
    }

    // The top overlay (L4, a 4-deep chain) must resolve each band to the layer
    // that wrote it, and the untouched 400..500 band to the original base.
    let top = Db::open(tmp.path("L4.db")).unwrap();
    for lvl in 1..=4u32 {
        let i = (lvl - 1) * 100 + 50;
        assert_eq!(
            top.get(format!("key{i:06}").as_bytes()).unwrap().as_deref(),
            Some(format!("v{lvl}").as_bytes()),
            "band written at level {lvl} did not resolve"
        );
    }
    assert_eq!(top.get(b"key000450").unwrap().as_deref(), Some(&b"v0"[..]));
    assert_eq!(top.scan(None, None).unwrap().len(), 500);
}

#[test]
fn five_overlays_share_one_base_without_disturbing_it() {
    let tmp = TmpDir::new();
    let main = tmp.path("main.db");
    let snap = tmp.path("snap.db");
    let n: u32 = 1000;
    let overlay_count: u32 = 5;

    // Build the base image and snapshot it.
    {
        let mut db = Db::open(&main).unwrap();
        fill(&mut db, 0..n, "base");
        db.checkpoint(&snap).unwrap();
    }
    let snap_before = snap.read();

    // Spin up five independent overlays over the same snapshot, all live at once.
    let mut overlays: Vec<Db> = (0..overlay_count)
        .map(|j| Db::open_overlay(tmp.path(&format!("ov{j}.db")), &snap).unwrap())
        .collect();

    // Each overlay rewrites every key, deletes its own slice, and adds its own
    // fresh keys. Interleave the work so all overlays are mutating concurrently.
    for round in 0..n {
        for (j, ov) in overlays.iter_mut().enumerate() {
            let j = j as u32;
            // Overwrite key `round` with a value unique to this overlay.
            ov.insert(
                format!("key{round:06}").as_bytes(),
                format!("ov{j}").as_bytes(),
            )
            .unwrap();
        }
    }
    for (j, ov) in overlays.iter_mut().enumerate() {
        let j = j as u32;
        // Delete a slice unique to this overlay.
        for i in (j * 100)..(j * 100 + 50) {
            assert!(ov.delete(format!("key{i:06}").as_bytes()).unwrap());
        }
        // Insert fresh keys unique to this overlay.
        for i in n..(n + 100) {
            ov.insert(
                format!("key{i:06}").as_bytes(),
                format!("new{j}").as_bytes(),
            )
            .unwrap();
        }
    }

    // Every overlay sees only its own edits, never a sibling's.
    for (j, ov) in overlays.iter().enumerate() {
        let j = j as u32;
        let want = format!("ov{j}");
        // A rewritten key reflects this overlay's value.
        assert_eq!(
            ov.get(b"key000777").unwrap().as_deref(),
            Some(want.as_bytes()),
            "overlay {j} lost its own write"
        );
        // This overlay's deleted slice is gone here...
        assert_eq!(
            ov.get(format!("key{:06}", j * 100).as_bytes()).unwrap(),
            None
        );
        // ...but a sibling's deleted slice is still present here (as our rewrite).
        let sibling = (j + 1) % overlay_count;
        assert_eq!(
            ov.get(format!("key{:06}", sibling * 100).as_bytes())
                .unwrap()
                .as_deref(),
            Some(want.as_bytes()),
            "overlay {j} saw sibling {sibling}'s delete"
        );
        // This overlay's fresh key carries its own marker.
        assert_eq!(
            ov.get(format!("key{:06}", n).as_bytes())
                .unwrap()
                .as_deref(),
            Some(format!("new{j}").as_bytes())
        );
        // Count: N rewritten - 50 deleted + 100 fresh.
        assert_eq!(ov.scan(None, None).unwrap().len(), (n - 50 + 100) as usize);
    }

    // Flush and close all overlays.
    drop(overlays);

    // The shared base image is byte-for-byte unchanged.
    let snap_after = snap.read();
    assert_eq!(
        snap_before, snap_after,
        "base snapshot changed after five overlays mutated it"
    );

    // And it still reads back as the original, pristine data.
    let check = Db::open_overlay(tmp.path("check.db"), &snap).unwrap();
    assert_eq!(check.scan(None, None).unwrap().len(), n as usize);
    for i in (0..n).step_by(37) {
        assert_eq!(
            check
                .get(format!("key{i:06}").as_bytes())
                .unwrap()
                .as_deref(),
            Some(&b"base"[..]),
            "base key {i} was disturbed"
        );
    }
}

#[test]
fn flush_persists_every_page_without_drop() {
    let tmp = TmpDir::new();
    let path = tmp.path("main.db");

    let mut db = Db::open(&path).unwrap();
    fill(&mut db, 0..2000, "v0");
    db.flush().unwrap();
    std::mem::forget(db); // simulate a crash right after flush: Drop never runs

    let db = Db::open(&path).unwrap();
    assert_eq!(db.scan(None, None).unwrap().len(), 2000);
    for i in (0..2000).step_by(41) {
        assert_eq!(
            db.get(format!("key{i:06}").as_bytes()).unwrap().as_deref(),
            Some(&b"v0"[..]),
            "key {i} not durable after flush"
        );
    }
}

#[test]
fn flush_rewrites_clean_pages_after_a_sync() {
    // After a sync there are no dirty pages, so flush must re-read every
    // resident page from disk and write it back. Verify it still persists.
    let tmp = TmpDir::new();
    let path = tmp.path("main.db");

    let mut db = Db::open(&path).unwrap();
    fill(&mut db, 0..1500, "v0");
    db.sync().unwrap(); // dirty set now empty; pages already on disk
    db.flush().unwrap(); // force-rewrite all resident pages anyway
    std::mem::forget(db);

    let db = Db::open(&path).unwrap();
    assert_eq!(db.scan(None, None).unwrap().len(), 1500);
    assert_eq!(db.get(b"key000999").unwrap().as_deref(), Some(&b"v0"[..]));
}

#[test]
fn flush_on_overlay_persists_resident_pages_and_spares_the_base() {
    let tmp = TmpDir::new();
    let main = tmp.path("main.db");
    let snap = tmp.path("snap.db");
    let work = tmp.path("work.db");

    {
        let mut db = Db::open(&main).unwrap();
        fill(&mut db, 0..2000, "base");
        db.checkpoint(&snap).unwrap();
    }
    let snap_before = snap.read();

    // Overlay: copy up some pages (edits) and add native pages (fresh), flush.
    let mut ov = Db::open_overlay(&work, &snap).unwrap();
    fill(&mut ov, 0..500, "edited"); // copy-up of base pages
    fill(&mut ov, 2000..2300, "fresh"); // native pages
    ov.flush().unwrap();
    std::mem::forget(ov); // only flush should have persisted things

    // The base snapshot is byte-for-byte untouched: flush wrote only this file.
    assert_eq!(snap.read(), snap_before);

    // Reopen the overlay; resident pages (copied + native) survived the flush,
    // and untouched base pages still read through.
    let ov = Db::open(&work).unwrap();
    assert_eq!(
        ov.get(b"key000123").unwrap().as_deref(),
        Some(&b"edited"[..])
    ); // copied up
    assert_eq!(ov.get(b"key001234").unwrap().as_deref(), Some(&b"base"[..])); // read-through
    assert_eq!(
        ov.get(b"key002100").unwrap().as_deref(),
        Some(&b"fresh"[..])
    ); // native
    assert_eq!(ov.scan(None, None).unwrap().len(), 2300);
}

#[test]
fn flush_is_refused_on_a_frozen_database() {
    let tmp = TmpDir::new();
    let main = tmp.path("main.db");
    let snap = tmp.path("snap.db");

    let mut db = Db::open(&main).unwrap();
    fill(&mut db, 0..10, "v0");
    db.checkpoint(&snap).unwrap();

    // Frozen: flushing would write the shared snapshot inode, so it's refused.
    assert!(matches!(db.flush(), Err(Error::Frozen)));
}

#[test]
fn full_snapshot_of_a_deep_chain_stands_alone_after_deleting_every_base() {
    let chain = TmpDir::new();
    let out = TmpDir::new();
    let flat = out.path("flat.db");

    // Build a 4-deep overlay chain, each level owning a 100-key band; 400..500
    // exists only in the original base.
    {
        let mut db = Db::open(chain.path("L0.db")).unwrap();
        fill(&mut db, 0..500, "v0");
        db.checkpoint(chain.path("c0.db")).unwrap();
    }
    for lvl in 1..=4u32 {
        let mut ov = Db::open_overlay(
            chain.path(&format!("L{lvl}.db")),
            chain.path(&format!("c{}.db", lvl - 1)),
        )
        .unwrap();
        fill(&mut ov, (lvl - 1) * 100..lvl * 100, &format!("v{lvl}"));
        if lvl < 4 {
            ov.checkpoint(chain.path(&format!("c{lvl}.db"))).unwrap();
        }
    }

    // Snapshot the top of the chain into a standalone file.
    {
        let top = Db::open(chain.path("L4.db")).unwrap();
        top.full_snapshot(&flat).unwrap();
    }

    // Nuke the entire chain: every base, checkpoint, and overlay file is gone.
    chain.remove_all();

    // The flattened snapshot still opens and resolves every band on its own.
    let db = Db::open(&flat).unwrap();
    for lvl in 1..=4u32 {
        let i = (lvl - 1) * 100 + 50;
        assert_eq!(
            db.get(format!("key{i:06}").as_bytes()).unwrap().as_deref(),
            Some(format!("v{lvl}").as_bytes()),
            "band {lvl} missing from standalone snapshot"
        );
    }
    assert_eq!(db.get(b"key000450").unwrap().as_deref(), Some(&b"v0"[..]));
    assert_eq!(db.scan(None, None).unwrap().len(), 500);
}

#[test]
fn full_snapshot_does_not_freeze_or_alter_the_source() {
    let tmp = TmpDir::new();
    let snap = tmp.path("snap.db");

    let mut db = Db::open(tmp.path("main.db")).unwrap();
    fill(&mut db, 0..300, "v0");
    db.full_snapshot(&snap).unwrap();

    // Source is still writable (not frozen) and keeps evolving.
    assert!(!db.is_frozen());
    fill(&mut db, 300..400, "v1");
    assert_eq!(db.get(b"key000350").unwrap().as_deref(), Some(&b"v1"[..]));
    drop(db);

    // The snapshot froze the point-in-time state: only 0..300 existed then.
    let snap_db = Db::open(&snap).unwrap();
    assert_eq!(snap_db.scan(None, None).unwrap().len(), 300);
    assert_eq!(snap_db.get(b"key000350").unwrap(), None);
}

#[test]
fn full_snapshot_is_a_real_writable_standalone_db() {
    let tmp = TmpDir::new();
    let snap = tmp.path("snap.db");

    // Snapshot an overlay so the source had a base, then prove the copy is a
    // normal, writable, base-free database.
    {
        let mut base = Db::open(tmp.path("base.db")).unwrap();
        fill(&mut base, 0..200, "base");
        base.checkpoint(tmp.path("c.db")).unwrap();
        let mut ov = Db::open_overlay(tmp.path("ov.db"), tmp.path("c.db")).unwrap();
        fill(&mut ov, 0..50, "edited");
        ov.full_snapshot(&snap).unwrap();
    }

    let mut db = Db::open(&snap).unwrap();
    assert_eq!(
        db.get(b"key000010").unwrap().as_deref(),
        Some(&b"edited"[..])
    );
    assert_eq!(db.get(b"key000100").unwrap().as_deref(), Some(&b"base"[..]));
    // Fully writable: insert, overwrite, delete all work.
    fill(&mut db, 200..250, "new");
    db.insert(b"key000010", b"again").unwrap();
    assert!(db.delete(b"key000100").unwrap());
    assert_eq!(
        db.get(b"key000010").unwrap().as_deref(),
        Some(&b"again"[..])
    );
    assert_eq!(db.get(b"key000100").unwrap(), None);
    assert_eq!(db.scan(None, None).unwrap().len(), 200 - 1 + 50);
}

#[test]
fn snapshot_holds_exactly_the_records_every_overlay_contributed() {
    let chain = TmpDir::new();
    let out = TmpDir::new();
    let flat = out.path("flat.db");

    // `oracle` records every key/value that should exist after all overlays.
    // Every write/delete is mirrored into it so we know the exact expected set.
    let mut oracle: BTreeMap<Vec<u8>, Vec<u8>> = BTreeMap::new();
    let key = |i: u32| format!("key{i:08}").into_bytes();

    let put = |db: &mut Db, oracle: &mut BTreeMap<Vec<u8>, Vec<u8>>, k: Vec<u8>, v: Vec<u8>| {
        db.insert(&k, &v).unwrap();
        oracle.insert(k, v);
    };
    let del = |db: &mut Db, oracle: &mut BTreeMap<Vec<u8>, Vec<u8>>, k: &[u8]| {
        assert_eq!(db.delete(k).unwrap(), oracle.remove(k).is_some());
    };

    // Layer 0: the base, keys 0..200.
    {
        let mut db = Db::open(chain.path("L0.db")).unwrap();
        for i in 0..200u32 {
            put(&mut db, &mut oracle, key(i), b"base".to_vec());
        }
        db.checkpoint(chain.path("c0.db")).unwrap();
    }

    // Layers 1..=4, each contributing a disjoint, recorded set of changes:
    //   - 50 brand-new keys in its own band (1000*lvl ..)
    //   - overwrites 20 base keys to "edit{lvl}"
    //   - deletes 10 base keys
    for lvl in 1..=4u32 {
        let mut ov = Db::open_overlay(
            chain.path(&format!("L{lvl}.db")),
            chain.path(&format!("c{}.db", lvl - 1)),
        )
        .unwrap();

        for i in 0..50u32 {
            put(
                &mut ov,
                &mut oracle,
                key(1000 * lvl + i),
                format!("add{lvl}").into_bytes(),
            );
        }
        for i in (lvl - 1) * 20..(lvl - 1) * 20 + 20 {
            put(
                &mut ov,
                &mut oracle,
                key(i),
                format!("edit{lvl}").into_bytes(),
            );
        }
        for i in 100 + (lvl - 1) * 10..100 + (lvl - 1) * 10 + 10 {
            del(&mut ov, &mut oracle, &key(i));
        }

        if lvl < 4 {
            ov.checkpoint(chain.path(&format!("c{lvl}.db"))).unwrap();
        }
    }

    // Snapshot the top of the chain into a standalone file.
    {
        let top = Db::open(chain.path("L4.db")).unwrap();
        top.full_snapshot(&flat).unwrap();
    }

    // Delete every base file: the snapshot must need none of them.
    chain.remove_all();

    // The standalone snapshot holds exactly the recorded records, no more, no less.
    let db = Db::open(&flat).unwrap();
    let got = db.scan(None, None).unwrap();
    let expected: Vec<(Vec<u8>, Vec<u8>)> =
        oracle.iter().map(|(k, v)| (k.clone(), v.clone())).collect();
    assert_eq!(
        got, expected,
        "snapshot contents differ from the recorded oracle"
    );

    // Sanity on the size: 200 base - 40 deleted + 200 added = 360.
    assert_eq!(got.len(), 360);
    assert_eq!(got.len(), oracle.len());
}

// The library without files.

fn fresh() -> FilePager {
    FilePager::open_inner(0, true).unwrap()
}

fn ready<T>(f: Fetch<T>) -> T {
    match f {
        Fetch::Ready(v) => v,
        Fetch::Missing(m) => panic!("missing {m:?}"),
    }
}

fn missing<T>(f: Fetch<T>) -> PageRequest {
    match f {
        Fetch::Ready(_) => panic!("nothing is missing"),
        Fetch::Missing(m) => m,
    }
}

fn raw(op: &FileOp) -> (u64, usize) {
    match op {
        FileOp::Write { offset, bytes } => (*offset, bytes.len()),
        other => panic!("not a write: {other:?}"),
    }
}

#[test]
fn only_a_writable_empty_file_is_fresh() {
    assert!(FilePager::open_inner(0, true).is_some());
    assert!(FilePager::open_inner(0, false).is_none());
    assert!(FilePager::open_inner(1, true).is_none());
    let pager = fresh();
    assert_eq!((pager.meta.root, pager.meta.num_pages, pager.meta.height), (1, 2, 1));
    assert_eq!((pager.meta.base_offset, pager.meta.base_path.clone()), (0, None));
    assert_eq!(ready(Tree::open(pager).scan(None, None).unwrap()), vec![]);
}

#[test]
fn size_limits_are_exact() {
    let mut db = TmpDb::new().open();
    let key = vec![b'k'; 1024];
    assert_eq!(
        db.insert(&vec![b'k'; 1025], b"").unwrap_err(),
        Error::KeyTooLarge { key: 1025, limit: 1024 }
    );
    assert_eq!(
        db.insert(&key, &vec![0; 1018]).unwrap_err(),
        Error::EntryTooLarge { key: 1024, value: 1018, limit: 2041 }
    );
    db.insert(&key, &vec![1; 1017]).unwrap();
    assert_eq!(
        db.insert(b"", &vec![0; 2042]).unwrap_err(),
        Error::EntryTooLarge { key: 0, value: 2042, limit: 2041 }
    );
    db.insert(b"", &vec![2; 2041]).unwrap();
    assert_eq!(db.get(&key).unwrap(), Some(vec![1; 1017]));
    assert_eq!(db.get(b"").unwrap(), Some(vec![2; 2041]));
    db.insert(b"", b"").unwrap();
    assert_eq!(db.get(b"").unwrap(), Some(vec![]));
    assert_eq!(db.scan(None, None).unwrap().len(), 2);
}

#[test]
fn large_entries_split_pages_of_any_kind() {
    let tmp = TmpDb::new();
    let mut db = tmp.open();
    let mut oracle: BTreeMap<Vec<u8>, Vec<u8>> = BTreeMap::new();
    let mut rng = Rng(42);
    for _ in 0..600 {
        let mut key = rng.next().to_be_bytes().to_vec();
        key.resize(8 + rng.below(1017) as usize, b'x');
        let value = vec![7; rng.below(1017) as usize];
        db.insert(&key, &value).unwrap();
        oracle.insert(key, value);
    }
    assert!(db.tree.borrow().pager.meta.height >= 3);
    drop(db);
    let db = tmp.open();
    let expected: Vec<(Vec<u8>, Vec<u8>)> = oracle.into_iter().collect();
    assert_eq!(db.scan(None, None).unwrap(), expected);
}

#[test]
fn scan_bounds_are_half_open() {
    let mut db = TmpDb::new().open();
    for k in [b"a", b"b", b"c", b"d"] {
        db.insert(k, b"v").unwrap();
    }
    let keys = |lower: Option<&[u8]>, upper: Option<&[u8]>| -> Vec<Vec<u8>> {
        db.scan(lower, upper).unwrap().into_iter().map(|(k, _)| k).collect()
    };
    assert_eq!(keys(Some(b"b"), Some(b"d")), vec![b"b".to_vec(), b"c".to_vec()]);
    assert_eq!(keys(Some(b"bb"), None), vec![b"c".to_vec(), b"d".to_vec()]);
    assert_eq!(keys(None, Some(b"b")), vec![b"a".to_vec()]);
    assert_eq!(keys(Some(b"c"), Some(b"b")), Vec::<Vec<u8>>::new());
    assert_eq!(keys(Some(b"b"), Some(b"b")), Vec::<Vec<u8>>::new());
    assert_eq!(keys(Some(b"e"), None), Vec::<Vec<u8>>::new());
}

#[test]
fn a_missing_page_is_asked_for() {
    let mut tree = Tree::open(fresh());
    ready(tree.insert(b"a", b"1").unwrap());
    tree.synced();
    let want = PageRequest { level: 0, id: 1 };
    assert_eq!(missing(tree.get(b"a").unwrap()), want);
    assert_eq!(missing(tree.scan(None, None).unwrap()), want);
    assert_eq!(missing(tree.insert(b"b", b"2").unwrap()), want);
    assert_eq!(missing(tree.delete(b"a").unwrap()), want);

    let mut page = btree::page::Page::new(1);
    page.put(b"x", b"9").unwrap();
    assert_eq!(missing(tree.get(b"x").unwrap()), want);
    tree.supply(1, page.as_bytes());
    assert_eq!(ready(tree.get(b"x").unwrap()), Some(b"9".to_vec()));
    // A page that is there already stays.
    tree.supply(1, btree::page::Page::new(1).as_bytes());
    assert_eq!(ready(tree.get(b"x").unwrap()), Some(b"9".to_vec()));
    // What was read can be forgotten, what was written cannot.
    tree.forget();
    assert_eq!(missing(tree.get(b"x").unwrap()), want);
    tree.supply(1, page.as_bytes());
    ready(tree.insert(b"y", b"8").unwrap());
    tree.forget();
    assert_eq!(ready(tree.get(b"y").unwrap()), Some(b"8".to_vec()));
}

#[test]
fn an_overlay_asks_each_file_for_its_own_pages() {
    let mut base = fresh();
    base.synced();
    let mut tree = Tree::open_overlay(base, "base.db".to_string());
    assert_eq!(missing(tree.get(b"a").unwrap()), PageRequest { level: 0, id: 1 });
    tree.supply(1, btree::page::Page::new(1).as_bytes());
    ready(tree.insert(b"a", b"1").unwrap());
    assert_eq!(tree.pager.copied, vec![false, true]);

    let plan = tree.sync().unwrap();
    assert_eq!(plan.len(), 5);
    assert_eq!(raw(&plan[0]), (8192, 8192));
    assert_eq!(raw(&plan[1]), (2 * 8192, 1));
    assert!(matches!(&plan[1], FileOp::Write { bytes, .. } if bytes[0] == 2));
    assert!(matches!(plan[2], FileOp::SyncData));
    assert_eq!(raw(&plan[3]), (0, 8192));
    assert!(matches!(plan[4], FileOp::SyncData));

    tree.synced();
    assert_eq!(missing(tree.get(b"a").unwrap()), PageRequest { level: 1, id: 1 });
}

#[test]
fn plans_name_every_operation() {
    let mut tree = Tree::open(fresh());
    let plan = tree.sync().unwrap();
    assert_eq!(plan.len(), 4);
    assert_eq!(raw(&plan[0]), (8192, 8192));
    assert!(matches!(plan[1], FileOp::SyncData));
    assert_eq!(raw(&plan[2]), (0, 8192));
    assert!(matches!(plan[3], FileOp::SyncData));

    tree.synced();
    let plan = tree.sync().unwrap();
    assert_eq!(plan.len(), 3);
    let plan = tree.flush().unwrap();
    assert_eq!(plan.len(), 4);
    assert!(matches!(plan[0], FileOp::Copy { level: 0, offset: 8192 }));
    assert!(matches!(plan[1], FileOp::SyncAll));
    assert_eq!(raw(&plan[2]), (0, 8192));
    assert!(matches!(plan[3], FileOp::SyncAll));
    let plan = tree.full_snapshot();
    assert_eq!(plan.len(), 3);
    assert!(matches!(plan[0], FileOp::Copy { level: 0, offset: 8192 }));
    assert_eq!(raw(&plan[1]), (0, 8192));
    assert!(matches!(plan[2], FileOp::SyncAll));
}

#[test]
fn deleting_an_absent_key_makes_its_leaf_dirty() {
    let mut tree = Tree::open(fresh());
    tree.synced();
    tree.supply(1, btree::page::Page::new(1).as_bytes());
    assert_eq!(tree.sync().unwrap().len(), 3);
    assert!(!ready(tree.delete(b"a").unwrap()));
    assert_eq!(tree.sync().unwrap().len(), 4);
}

#[test]
fn a_tree_of_height_zero_grows_its_first_leaf() {
    let mut pager = fresh();
    pager.set_root(0, 0);
    let mut tree = Tree::open(pager);
    assert_eq!(ready(tree.get(b"a").unwrap()), None);
    assert_eq!(ready(tree.scan(None, None).unwrap()), vec![]);
    assert!(!ready(tree.delete(b"a").unwrap()));
    ready(tree.insert(b"a", b"1").unwrap());
    assert_eq!((tree.pager.meta.root, tree.pager.meta.height), (2, 1));
    assert_eq!(tree.pager.meta.num_pages, 3);
    assert_eq!(ready(tree.get(b"a").unwrap()), Some(b"1".to_vec()));
}

#[test]
fn page_ids_run_out() {
    let mut pager = fresh();
    assert_eq!(pager.allocate(), 2);
    assert_eq!(pager.new_page(), 3);
    let mut tree = Tree::open(pager);
    let value = vec![1; 1000];
    for k in 0..8u8 {
        ready(tree.insert(&[k], &value).unwrap());
    }
    tree.pager.meta.num_pages = u32::MAX - 1;
    assert!(!tree.has_room_for(&[8], &value));
    // An entry that takes no page needs no room.
    assert!(tree.has_room_for(b"a", b"1"));
    ready(tree.insert(b"a", b"1").unwrap());
    assert_eq!(tree.pager.meta.num_pages, u32::MAX - 1);
    // The last two ids are enough for a leaf and a root.
    tree.pager.meta.num_pages = u32::MAX - 2;
    assert!(tree.has_room_for(&[8], &value));
    ready(tree.insert(&[8], &value).unwrap());
    assert_eq!((tree.pager.meta.num_pages, tree.pager.meta.root), (u32::MAX, u32::MAX - 1));
    assert_eq!(ready(tree.get(&[8]).unwrap()), Some(value));
    // What is refused needs no room.
    assert!(tree.has_room_for(&vec![0; 1025], b""));
    assert!(tree.has_room_for(b"", &vec![0; 2042]));
    assert_eq!(
        tree.insert(b"", &vec![0; 2042]).unwrap_err(),
        Error::EntryTooLarge { key: 0, value: 2042, limit: 2041 }
    );
    tree.freeze();
    assert!(tree.has_room_for(b"a", b"1"));
    assert_eq!(tree.insert(b"a", b"1").unwrap_err(), Error::Frozen);
}

#[test]
fn a_page_of_the_wrong_kind_on_the_way_down_is_refused() {
    let mut pager = fresh();
    let mut page = btree::page::Page::new(1);
    page.put(b"A", b"cut").unwrap();
    pager.write_page(1, page);
    pager.set_root(1, 2);
    let mut tree = Tree::open(pager);
    let refusal = Error::Io(Fault::BadInternalPage);
    assert_eq!(tree.get(b"a").unwrap_err(), refusal);
    // The way to the first leaf reads no separator.
    assert_eq!(missing(tree.scan(None, None).unwrap()), PageRequest { level: 0, id: 0 });
    assert_eq!(tree.scan(Some(b"a"), None).unwrap_err(), refusal);
    assert_eq!(tree.insert(b"a", b"1").unwrap_err(), refusal);
    assert_eq!(tree.delete(b"a").unwrap_err(), refusal);
}

#[test]
fn a_leaf_with_a_large_entry_is_refused() {
    let mut pager = fresh();
    let mut page = btree::page::Page::new(1);
    page.put(b"a", &vec![1; 5000]).unwrap();
    page.put(b"b", &vec![1; 3000]).unwrap();
    pager.write_page(1, page);
    let mut tree = Tree::open(pager);
    assert_eq!(tree.insert(b"c", &vec![1; 200]).unwrap_err(), Error::Io(Fault::BadLeafPage));
}

#[test]
fn an_endless_chain_is_refused() {
    let mut pager = fresh();
    let mut page = btree::page::Page::new(1);
    page.put(b"a", b"1").unwrap();
    page.set_next_leaf_page_id(Some(1));
    pager.write_page(1, page);
    let tree = Tree::open(pager);
    let mut scan = ready(tree.scan_start(None).unwrap());
    assert_eq!(scan.left, 1 << 32);
    ready(tree.scan_step(&mut scan, None, None).unwrap());
    ready(tree.scan_step(&mut scan, None, None).unwrap());
    assert_eq!((scan.left, scan.out.len(), scan.done), ((1 << 32) - 2, 2, false));
    scan.left = 0;
    assert_eq!(
        tree.scan_step(&mut scan, None, None).unwrap_err(),
        Error::Io(Fault::EndlessChain)
    );
    assert_eq!(ready(tree.scan(None, Some(b"a")).unwrap()), vec![]);
}

#[test]
fn a_separator_that_is_there_already_is_refused() {
    let mut pager = fresh();
    let right = pager.new_page();
    let root = pager.new_page();
    let mut left = btree::page::Page::new(1);
    for k in [b"a", b"b", b"c", b"d", b"m", b"n", b"o", b"p"] {
        left.put(k, &vec![1; 1001]).unwrap();
    }
    pager.write_page(1, left);
    pager.write_page(
        root,
        btree::internal::InternalPage::new_root(root, 1, b"m", right).into_page(),
    );
    pager.set_root(root, 2);
    let mut tree = Tree::open(pager);
    assert_eq!(
        tree.insert(b"e", &vec![1; 1001]).unwrap_err(),
        Error::Io(Fault::DuplicateSeparator)
    );
}

#[test]
fn a_scan_can_be_taken_step_by_step() {
    let tmp = TmpDb::new();
    let mut db = tmp.open();
    fill(&mut db, 0..1000, "some value");
    db.sync().unwrap();
    let expected = db.scan(Some(b"key000100"), Some(b"key000900")).unwrap();
    assert_eq!(expected.len(), 800);
    let lower: Option<&[u8]> = Some(b"key000100");
    let upper: Option<&[u8]> = Some(b"key000900");
    let mut scan = loop {
        let r = db.tree.borrow().scan_start(lower).unwrap();
        match r {
            Fetch::Ready(scan) => break scan,
            Fetch::Missing(m) => db.fetch(m).unwrap(),
        }
    };
    let mut leaves = 0;
    while !scan.done {
        db.tree.borrow_mut().forget();
        let r = db.tree.borrow().scan_step(&mut scan, lower, upper).unwrap();
        db.fetch(missing(r)).unwrap();
        ready(db.tree.borrow().scan_step(&mut scan, lower, upper).unwrap());
        leaves += 1;
    }
    assert!(leaves > 1);
    assert_eq!(scan.out, expected);
}

#[test]
fn a_chain_may_be_longer_than_the_page_count() {
    let mut pager = fresh();
    let second = pager.new_page();
    let third = pager.new_page();
    for (id, next) in [(1, Some(second)), (second, Some(third)), (third, None)] {
        let mut page = btree::page::Page::new(id);
        page.put(&[id as u8], b"v").unwrap();
        page.set_next_leaf_page_id(next);
        pager.write_page(id, page);
    }
    pager.meta.num_pages = 2;
    let tree = Tree::open(pager);
    let keys: Vec<Vec<u8>> =
        ready(tree.scan(None, None).unwrap()).into_iter().map(|(k, _)| k).collect();
    assert_eq!(keys, vec![vec![1], vec![2], vec![3]]);
}

#[test]
fn a_page_of_zeros_reads_as_an_empty_leaf() {
    let mut tree = Tree::open(fresh());
    tree.synced();
    tree.supply(1, &vec![0; PAGE_SIZE]);
    assert_eq!(ready(tree.get(b"a").unwrap()), None);
    assert_eq!(ready(tree.scan(None, None).unwrap()), vec![]);
    assert!(!ready(tree.delete(b"a").unwrap()));
    ready(tree.insert(b"a", b"1").unwrap());
    assert_eq!(ready(tree.get(b"a").unwrap()), Some(b"1".to_vec()));
}

#[test]
fn a_file_with_a_base_offset_and_no_base_opens() {
    let pager = fresh();
    let meta = Meta { num_pages: 4, base_offset: 3, ..pager.meta };
    let pager = FilePager::resume(meta, None, &[255]);
    assert_eq!(pager.copied, vec![false, false, false]);
    assert!(!pager.has_file_for(1));
    assert!(pager.has_file_for(3));
    let tree = Tree::open(pager);
    assert_eq!(missing(tree.get(b"a").unwrap()).id, 1);
    // No flags are written for it.
    assert_eq!(tree.sync().unwrap().len(), 3);
}

#[test]
fn a_tree_grows_by_the_pages_that_are_split() {
    let mut tree = Tree::open(fresh());
    let value = vec![1; 1000];
    let shape = |tree: &Tree| {
        let meta = &tree.pager.meta;
        (meta.root, meta.num_pages, meta.height)
    };
    for k in 0..8u8 {
        ready(tree.insert(&[k], &value).unwrap());
        assert_eq!(shape(&tree), (1, 2, 1));
    }
    // The leaf is split, and a root goes above the two leaves.
    ready(tree.insert(&[8], &value).unwrap());
    assert_eq!(shape(&tree), (3, 4, 2));
    let root = ready(tree.pager.read_page(3));
    assert_eq!((root.slot_count(), root.next_leaf_page_id()), (1, Some(1)));
    // A leaf with room changes nothing, one without gets a neighbour, and the root has room.
    ready(tree.insert(&[9], &value).unwrap());
    assert_eq!(shape(&tree), (3, 4, 2));
    for k in 10..100u8 {
        let (root, pages, height) = shape(&tree);
        ready(tree.insert(&[k], &value).unwrap());
        let now = shape(&tree);
        assert!(now == (root, pages, height) || now == (root, pages + 1, height));
    }
    for k in 0..100u8 {
        assert_eq!(ready(tree.get(&[k]).unwrap()), Some(value.clone()));
    }
    // Deletes merge nothing.
    let before = shape(&tree);
    for k in 0..100u8 {
        assert!(ready(tree.delete(&[k]).unwrap()));
    }
    assert_eq!(shape(&tree), before);
    assert_eq!(ready(tree.scan(None, None).unwrap()), vec![]);
}

#[test]
fn a_split_that_climbs_past_the_root_adds_a_root() {
    let mut tree = Tree::open(fresh());
    let mut heights = vec![tree.pager.meta.height];
    for i in 0..60u32 {
        let mut key = i.to_be_bytes().to_vec();
        key.resize(1024, b'x');
        let (pages, height) = (tree.pager.meta.num_pages, tree.pager.meta.height);
        ready(tree.insert(&key, &vec![1; 1000]).unwrap());
        let grown = tree.pager.meta.num_pages - pages;
        assert!(grown <= height + 1);
        if tree.pager.meta.height > height {
            // Every page on the way was split, and the new root is the last new page.
            assert_eq!(grown, height + 1);
            assert_eq!(tree.pager.meta.root, tree.pager.meta.num_pages - 1);
            heights.push(tree.pager.meta.height);
        }
    }
    assert_eq!(heights, vec![1, 2, 3]);
}

#[test]
fn a_flush_after_a_sync_changes_no_byte() {
    let tmp = TmpDb::new();
    let mut db = tmp.open();
    fill(&mut db, 0..500, "some value");
    db.sync().unwrap();
    let before = db.files.borrow().nodes.clone();
    db.flush().unwrap();
    assert_eq!(db.files.borrow().nodes, before);
}

/// A leaf with the keys `a`, `b` and `c`, where the tuple of `b` is marked as dead.
fn marked_page() -> Vec<u8> {
    let mut page = btree::page::Page::new(1);
    for (k, v) in [(b"a", b"1"), (b"b", b"2"), (b"c", b"3")] {
        page.put(k, v).unwrap();
    }
    let off = page.read_slot(1);
    page.write_tuple(off, 1, b"b", b"2");
    page.as_bytes().to_vec()
}

fn on_page(bytes: &[u8]) -> Tree {
    let mut tree = Tree::open(fresh());
    tree.synced();
    tree.supply(1, bytes);
    tree
}

#[test]
fn a_leaf_with_a_dead_tuple_is_read_without_it() {
    let mut tree = on_page(&marked_page());
    assert_eq!(ready(tree.get(b"a").unwrap()), Some(b"1".to_vec()));
    assert_eq!(ready(tree.get(b"b").unwrap()), None);
    assert_eq!(ready(tree.get(b"c").unwrap()), Some(b"3".to_vec()));
    let keys = |tree: &Tree| -> Vec<Vec<u8>> {
        ready(tree.scan(None, None).unwrap()).into_iter().map(|(k, _)| k).collect()
    };
    assert_eq!(keys(&tree), vec![b"a".to_vec(), b"c".to_vec()]);
    // It can be written to.
    ready(tree.insert(b"d", b"4").unwrap());
    assert_eq!(keys(&tree), vec![b"a".to_vec(), b"c".to_vec(), b"d".to_vec()]);
    assert_eq!(ready(tree.get(b"d").unwrap()), Some(b"4".to_vec()));
    ready(tree.insert(b"b", b"5").unwrap());
    assert_eq!(ready(tree.get(b"b").unwrap()), Some(b"5".to_vec()));

    // The slot of the dead tuple is still there to be removed.
    let mut tree = on_page(&marked_page());
    assert!(!ready(tree.delete(b"x").unwrap()));
    assert!(ready(tree.delete(b"b").unwrap()));
    assert!(!ready(tree.delete(b"b").unwrap()));
    assert!(ready(tree.delete(b"a").unwrap()));
    assert_eq!(keys(&tree), vec![b"c".to_vec()]);
}

#[test]
fn a_leaf_with_another_header_is_read() {
    let mut bytes = marked_page();
    // No free space, and the tuples in front of its end.
    bytes[10..14].copy_from_slice(&[0, 32, 0, 32]);
    let mut tree = on_page(&bytes);
    assert_eq!(ready(tree.get(b"c").unwrap()), Some(b"3".to_vec()));
    assert_eq!(ready(tree.scan(None, None).unwrap()).len(), 2);
    ready(tree.insert(b"d", b"4").unwrap());
    assert_eq!(ready(tree.scan(None, None).unwrap()).len(), 3);
}

#[test]
fn a_leaf_is_read_as_far_as_a_lookup_goes() {
    let mut bytes = marked_page();
    // The slot of `c` refers behind the page.
    bytes[24..26].copy_from_slice(&[255, 255]);
    let mut tree = on_page(&bytes);
    assert_eq!(ready(tree.get(b"a").unwrap()), Some(b"1".to_vec()));
    assert_eq!(tree.get(b"c").unwrap_err(), Error::Io(Fault::BadPage));
    assert_eq!(tree.scan(None, None).unwrap_err(), Error::Io(Fault::BadPage));
    assert_eq!(tree.delete(b"c").unwrap_err(), Error::Io(Fault::BadPage));
    assert_eq!(tree.delete(b"a").unwrap_err(), Error::Io(Fault::BadLeafPage));
    assert_eq!(tree.insert(b"d", b"4").unwrap_err(), Error::Io(Fault::BadLeafPage));
    // A scan that ends in front of it does not get there.
    let mut page = btree::page::Page::from_bytes(&bytes);
    page.write_tuple(page.read_slot(1), 0, b"b", b"2");
    let tree = on_page(page.as_bytes());
    assert_eq!(
        ready(tree.scan(None, Some(b"b")).unwrap()),
        vec![(b"a".to_vec(), b"1".to_vec())]
    );
}

#[test]
fn slots_out_of_order_are_searched_as_they_stand() {
    let mut bytes = marked_page();
    let (first, last) = (bytes[20..22].to_vec(), bytes[24..26].to_vec());
    bytes[20..22].copy_from_slice(&last);
    bytes[24..26].copy_from_slice(&first);
    let tree = on_page(&bytes);
    assert_eq!(ready(tree.get(b"a").unwrap()), None);
    assert_eq!(ready(tree.get(b"c").unwrap()), None);
    let keys: Vec<Vec<u8>> =
        ready(tree.scan(None, None).unwrap()).into_iter().map(|(k, _)| k).collect();
    assert_eq!(keys, vec![b"c".to_vec(), b"a".to_vec()]);
    assert_eq!(ready(tree.scan(None, Some(b"b")).unwrap()), vec![]);
    assert_eq!(
        ready(tree.scan(Some(b"a"), Some(b"b")).unwrap()),
        Vec::<(Vec<u8>, Vec<u8>)>::new()
    );
}

#[test]
fn long_separators_lead_to_children() {
    let mut pager = fresh();
    let right = pager.new_page();
    let root = pager.new_page();
    let sep = vec![b'm'; 2000];
    pager.write_page(
        root,
        btree::internal::InternalPage::new_root(root, 1, &sep, right).into_page(),
    );
    pager.set_root(root, 2);
    let mut tree = Tree::open(pager);
    ready(tree.insert(b"a", b"1").unwrap());
    ready(tree.insert(b"z", b"2").unwrap());
    assert_eq!(ready(tree.get(b"a").unwrap()), Some(b"1".to_vec()));
    assert_eq!(ready(tree.get(b"z").unwrap()), Some(b"2".to_vec()));
    let left = ready(tree.pager.read_page(1));
    assert_eq!((left.slot_count(), left.get(b"a")), (1, Some(&b"1"[..])));
}

#[test]
fn a_scan_with_its_bounds_the_wrong_way_round_finds_nothing() {
    let mut db = TmpDb::new().open();
    fill(&mut db, 0..500, "some value");
    assert_eq!(db.scan(Some(b"key000400"), Some(b"key000100")).unwrap(), vec![]);
}

#[test]
fn the_leaf_on_the_way_down_decides_a_key() {
    let mut tree = Tree::open(fresh());
    for k in 0..30u8 {
        ready(tree.insert(&[k], &vec![k; 1000]).unwrap());
    }
    assert_eq!(tree.pager.meta.height, 2);
    let root = ready(tree.pager.read_page(tree.pager.meta.root));
    let node = btree::internal::InternalPage::from_page(root);
    for k in 0..40u8 {
        let leaf = ready(tree.pager.read_page(node.find_child(&[k])));
        assert_eq!(ready(tree.get(&[k]).unwrap()), leaf.get(&[k]).map(|v| v.to_vec()));
    }
}
