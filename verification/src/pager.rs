//! The pages of a file and of the bases below it.
//!
//! A pager holds pages that were changed (dirty) and pages that were read from its file
//! (clean). It reads and writes no file itself: it says which page it lacks, and which
//! operations bring its file up to date.

use std::collections::BTreeMap;

use vstd::prelude::*;
use vstd::std_specs::btree::group_btree_axioms;

use crate::bits::{packed_len, unpack_bits, unpacked};
use crate::files::{file_flags, file_page, has_page, Disk};
use crate::layout::{empty_page, PAGE_SIZE};
use crate::meta::{decodes, Meta, MetaModel};
use crate::page::Page;
use crate::tree::Pages;
use crate::tree_read::part_of;

verus! {

/// A page that has to be read before an operation can go on: page `id` of file `level`.
#[derive(Debug, Clone, Copy, PartialEq, Eq, Structural)]
pub struct PageRequest {
    pub level: u32,
    pub id: u32,
}

/// A result, or the page that is missing for it.
#[derive(Debug)]
pub enum Fetch<T> {
    Ready(T),
    Missing(PageRequest),
}

/// The pages of one file, above those of its base.
pub struct FilePager {
    pub meta: Meta,
    /// How many files are below this one.
    pub level: u32,
    /// Pages written since the last sync. Source of truth until flushed.
    pub dirty: BTreeMap<u32, Page>,
    /// Pages read from the file.
    pub clean: BTreeMap<u32, Page>,
    /// Read-only base for ids < base_offset that have not been copied up.
    pub base: Option<Box<FilePager>>,
    /// copied[id] is true once base page `id` has been written into this file.
    pub copied: Vec<bool>,
}

/// The bytes of every page of the map.
pub open spec fn bytes_of(m: Map<u32, Page>) -> Pages {
    m.map_values(|p: Page| p@)
}

/// The page belongs to the file itself, not to its base.
pub open spec fn in_top(base_offset: u32, copied: Seq<bool>, id: u32) -> bool {
    id >= base_offset || copied[id as int]
}

/// The meta page of a fresh standalone file: page 0 = meta, page 1 = empty root leaf.
pub open spec fn fresh_meta() -> MetaModel {
    MetaModel { root: 1, num_pages: 2, height: 1, base_offset: 0, base_path: None }
}

/// The flags of copied pages once page `id` was written.
pub open spec fn marked(p: FilePager, id: u32) -> Seq<bool> {
    if id < p.meta.base_offset {
        p.copied@.update(id as int, true)
    } else {
        p.copied@
    }
}

/// A pager as it is when the files `disk` were just opened, but for pages that were read since:
/// its meta page and flags are those in its file, and the same holds of its base.
pub open spec fn opened(p: FilePager, disk: Disk) -> bool
    decreases p,
{
    let file = disk[p.level as int];
    &&& p.wf()
    &&& p.level < disk.len()
    &&& p.dirty@ == Map::<u32, Page>::empty()
    &&& has_page(file, 0)
    &&& decodes(file_page(file, 0), p.meta@)
    &&& match p.base {
        Some(b) => {
            &&& p.copied@ == unpacked(
                file_flags(file, p.meta.num_pages, packed_len(p.meta.base_offset as int)),
                p.meta.base_offset as nat,
            )
            &&& opened(*b, disk)
        },
        None => p.copied@ == unpacked(Seq::empty(), p.meta.base_offset as nat),
    }
}

/// The base, where there is one, is as it was opened.
pub open spec fn base_opened(p: FilePager, disk: Disk) -> bool {
    p.base matches Some(b) ==> opened(*b, disk)
}

impl FilePager {
    /// Whether page `id` is read from the file itself.
    pub open spec fn tops(&self, id: u32) -> bool {
        in_top(self.meta.base_offset, self.copied@, id)
    }

    pub open spec fn wf(&self) -> bool
        decreases self,
    {
        &&& self.copied@.len() == self.meta.base_offset
        &&& match self.base {
            Some(b) => {
                &&& b.wf()
                &&& b.dirty@ == Map::<u32, Page>::empty()
                &&& self.level == b.level + 1
            },
            None => self.level == 0,
        }
    }

    /// The file that page `id` is read from.
    pub open spec fn level_of(&self, id: u32) -> u32
        decreases self,
    {
        if self.tops(id) {
            self.level
        } else {
            match self.base {
                Some(b) => b.level_of(id),
                None => self.level,
            }
        }
    }

    /// Page `id` belongs to this file or to one below it. Not so where the pages below
    /// `base_offset` belong to a base that there is not.
    pub open spec fn resolves(&self, id: u32) -> bool
        decreases self,
    {
        self.tops(id) || match self.base {
            Some(b) => b.resolves(id),
            None => false,
        }
    }

    /// The share of dead bytes at which page `id`, if it is in memory, is compacted.
    pub open spec fn percent_at(&self, id: u32) -> u8
        decreases self,
    {
        if self.tops(id) {
            if self.dirty@.contains_key(id) {
                self.dirty@[id].percent()
            } else {
                self.clean@[id].percent()
            }
        } else {
            match self.base {
                Some(b) => b.percent_at(id),
                None => 0,
            }
        }
    }

    /// Page `id`, if it is in memory.
    pub open spec fn cached(&self, id: u32) -> Option<Seq<u8>>
        decreases self,
    {
        if self.tops(id) {
            if self.dirty@.contains_key(id) {
                Some(self.dirty@[id]@)
            } else if self.clean@.contains_key(id) {
                Some(self.clean@[id]@)
            } else {
                None
            }
        } else {
            match self.base {
                Some(b) => b.cached(id),
                None => None,
            }
        }
    }

    /// The pages in memory.
    pub open spec fn store(&self) -> Pages {
        Map::new(|id: u32| self.cached(id) is Some, |id: u32| self.cached(id)->0)
    }

    /// Page `id` when the files are `disk`.
    pub open spec fn page_at(&self, disk: Disk, id: u32) -> Option<Seq<u8>>
        decreases self,
    {
        if self.tops(id) {
            if self.dirty@.contains_key(id) {
                Some(self.dirty@[id]@)
            } else if has_page(disk[self.level as int], id) {
                Some(file_page(disk[self.level as int], id))
            } else {
                None
            }
        } else {
            match self.base {
                Some(b) => b.page_at(disk, id),
                None => None,
            }
        }
    }

    /// All pages when the files are `disk`.
    pub open spec fn pages(&self, disk: Disk) -> Pages {
        Map::new(|id: u32| self.page_at(disk, id) is Some, |id: u32| self.page_at(disk, id)->0)
    }

    /// Every page from the first up to `num_pages` is there.
    pub open spec fn whole(&self, disk: Disk) -> bool {
        forall|id: u32|
            1 <= id < self.meta.num_pages ==> #[trigger] self.pages(disk).contains_key(id)
    }

    /// What was read is what the files hold.
    pub open spec fn faithful(&self, disk: Disk) -> bool
        decreases self,
    {
        &&& self.level < disk.len()
        &&& forall|id: u32| #[trigger]
            self.clean@.contains_key(id) ==> has_page(disk[self.level as int], id) && file_page(
                disk[self.level as int],
                id,
            ) == self.clean@[id]@
        &&& match self.base {
            Some(b) => b.faithful(disk),
            None => true,
        }
    }

    /// The pages in memory are pages of the files.
    pub proof fn lemma_store(&self, disk: Disk)
        requires
            self.wf(),
            self.faithful(disk),
        ensures
            part_of(self.store(), self.pages(disk)),
    {
        assert forall|id: u32| #[trigger] self.store().contains_key(id) implies self.pages(
            disk,
        ).contains_key(id) && self.pages(disk)[id] == self.store()[id] by {
            self.lemma_cached(disk, id);
        }
    }

    proof fn lemma_cached(&self, disk: Disk, id: u32)
        requires
            self.wf(),
            self.faithful(disk),
        ensures
            self.cached(id) is Some ==> self.page_at(disk, id) == self.cached(id),
        decreases self,
    {
        if !self.tops(id) {
            match self.base {
                Some(b) => b.lemma_cached(disk, id),
                None => {},
            }
        }
    }

    /// A page that is not in memory is read from the file it is asked from.
    pub proof fn lemma_uncached(&self, disk: Disk, id: u32)
        requires
            self.wf(),
            self.faithful(disk),
            self.page_at(disk, id) is Some,
            self.cached(id) is None,
        ensures
            self.level_of(id) < disk.len(),
            has_page(disk[self.level_of(id) as int], id),
            file_page(disk[self.level_of(id) as int], id) == self.page_at(disk, id)->0,
        decreases self,
    {
        if !self.tops(id) {
            match self.base {
                Some(b) => b.lemma_uncached(disk, id),
                None => {},
            }
        }
    }

    /// Whether page `id` is read from the file itself.
    pub fn in_top(&self, id: u32) -> (r: bool)
        requires
            self.wf(),
        ensures
            r == self.tops(id),
    {
        id >= self.meta.base_offset || self.copied[id as usize]
    }

    /// Whether page `id` belongs to this file or to one below it.
    pub fn has_file_for(&self, id: u32) -> (r: bool)
        requires
            self.wf(),
        ensures
            r == self.resolves(id),
        decreases self,
    {
        if self.in_top(id) {
            return true;
        }
        match &self.base {
            Some(b) => b.has_file_for(id),
            None => false,
        }
    }

    /// Reads a page, resolving the overlay. Returns an owned clone.
    pub fn read_page(&self, id: u32) -> (r: Fetch<Page>)
        requires
            self.wf(),
        ensures
            match r {
                Fetch::Ready(p) => {
                    &&& self.store().contains_key(id)
                    &&& p@ == self.store()[id]
                    &&& p.percent() == self.percent_at(id)
                },
                Fetch::Missing(m) => {
                    &&& !self.store().contains_key(id)
                    &&& m == (PageRequest { level: self.level_of(id), id })
                },
            },
        decreases self,
    {
        broadcast use group_btree_axioms;

        if self.in_top(id) {
            match self.dirty.get(&id) {
                Some(page) => {
                    return Fetch::Ready(page.clone());
                },
                None => {},
            }
            match self.clean.get(&id) {
                Some(page) => {
                    return Fetch::Ready(page.clone());
                },
                None => {},
            }
            Fetch::Missing(PageRequest { level: self.level, id })
        } else {
            match &self.base {
                Some(b) => {
                    assert(b.store().contains_key(id) == self.store().contains_key(id));
                    b.read_page(id)
                },
                None => Fetch::Missing(PageRequest { level: self.level, id }),
            }
        }
    }

    /// Takes in page `id`, as it was read from its file. A page that is in memory already is
    /// left as it is. Whatever the bytes are, they are taken as
    /// the page.
    pub fn supply(&mut self, id: u32, bytes: &[u8])
        requires
            old(self).wf(),
            bytes@.len() == PAGE_SIZE,
        ensures
            final(self).wf(),
            final(self).meta == old(self).meta,
            final(self).level == old(self).level,
            final(self).dirty@ == old(self).dirty@,
            final(self).copied@ == old(self).copied@,
            final(self).store() == if old(self).resolves(id) && !old(self).store().contains_key(
                id,
            ) {
                old(self).store().insert(id, bytes@)
            } else {
                old(self).store()
            },
            forall|x: u32|
                old(self).store().contains_key(x) ==> #[trigger] final(self).percent_at(x)
                    == old(self).percent_at(x),
            old(self).resolves(id) && !old(self).store().contains_key(id)
                ==> final(self).percent_at(id) == 75,
            forall|x: u32| #[trigger] final(self).level_of(x) == old(self).level_of(x),
            forall|x: u32| #[trigger] final(self).resolves(x) == old(self).resolves(x),
            forall|disk: Disk|
                #![trigger base_opened(*old(self), disk)]
                #![trigger base_opened(*final(self), disk)]
                base_opened(*old(self), disk) ==> base_opened(*final(self), disk),
            forall|disk: Disk|
                #![trigger opened(*old(self), disk)]
                #![trigger opened(*final(self), disk)]
                opened(*old(self), disk) ==> opened(*final(self), disk),
            forall|disk: Disk| #[trigger] final(self).pages(disk) == old(self).pages(disk),
            forall|disk: Disk| #[trigger]
                old(self).faithful(disk) && has_page(disk[old(self).level_of(id) as int], id)
                    && file_page(disk[old(self).level_of(id) as int], id) == bytes@
                    ==> final(self).faithful(disk),
    {
        let page: Page = Page::from_bytes(bytes);
        assert(bytes@.take(PAGE_SIZE as int) =~= bytes@);
        self.keep(id, page);
        proof {
            assert(self.store() =~= if old(self).resolves(id) && !old(self).store().contains_key(
                id,
            ) {
                old(self).store().insert(id, bytes@)
            } else {
                old(self).store()
            });
            assert forall|disk: Disk| #[trigger] self.pages(disk) == old(self).pages(disk) by {
                assert(self.pages(disk) =~= old(self).pages(disk));
            }
        }
    }

    /// Keeps a page that was read from a file.
    #[verifier::spinoff_prover]
    #[verifier::rlimit(60)]
    fn keep(&mut self, id: u32, page: Page)
        requires
            old(self).wf(),
        ensures
            final(self).wf(),
            final(self).meta == old(self).meta,
            final(self).level == old(self).level,
            final(self).dirty@ == old(self).dirty@,
            final(self).copied@ == old(self).copied@,
            forall|x: u32| #[trigger]
                final(self).cached(x) == if x == id && old(self).resolves(x) && old(self).cached(
                    x,
                ) is None {
                    Some(page@)
                } else {
                    old(self).cached(x)
                },
            forall|x: u32|
                old(self).cached(x) is Some ==> #[trigger] final(self).percent_at(x)
                    == old(self).percent_at(x),
            old(self).resolves(id) && old(self).cached(id) is None ==> final(self).percent_at(id)
                == page.percent(),
            forall|x: u32| #[trigger] final(self).resolves(x) == old(self).resolves(x),
            forall|disk: Disk|
                #![trigger base_opened(*old(self), disk)]
                #![trigger base_opened(*final(self), disk)]
                base_opened(*old(self), disk) ==> base_opened(*final(self), disk),
            forall|disk: Disk|
                #![trigger opened(*old(self), disk)]
                #![trigger opened(*final(self), disk)]
                opened(*old(self), disk) ==> opened(*final(self), disk),
            forall|x: u32| #[trigger] final(self).level_of(x) == old(self).level_of(x),
            forall|disk: Disk, x: u32| #[trigger]
                final(self).page_at(disk, x) == old(self).page_at(disk, x),
            forall|disk: Disk| #[trigger]
                old(self).faithful(disk) && has_page(disk[old(self).level_of(id) as int], id)
                    && file_page(disk[old(self).level_of(id) as int], id) == page@
                    ==> final(self).faithful(disk),
        decreases *old(self),
    {
        broadcast use group_btree_axioms;

        if self.in_top(id) {
            if !self.dirty.contains_key(&id) && !self.clean.contains_key(&id) {
                self.clean.insert(id, page);
            }
        } else {
            match &mut self.base {
                Some(b) => {
                    b.keep(id, page);
                },
                None => {},
            }
        }
        proof {
            let was = *old(self);
            assert forall|x: u32| #[trigger] self.cached(x) == if x == id && was.resolves(x)
                && was.cached(x) is None {
                Some(page@)
            } else {
                was.cached(x)
            } by {
                assert(self.tops(x) == was.tops(x));
                if !was.tops(x) && !was.tops(id) && was.base is Some {
                    assert(self.base->0.cached(x) == if x == id && was.base->0.resolves(x)
                        && was.base->0.cached(x) is None {
                        Some(page@)
                    } else {
                        was.base->0.cached(x)
                    });
                }
            }
            assert forall|x: u32| was.cached(x) is Some implies #[trigger] self.percent_at(x)
                == was.percent_at(x) by {
                assert(self.tops(x) == was.tops(x));
                if !was.tops(x) && !was.tops(id) && was.base is Some {
                    assert(self.base->0.percent_at(x) == was.base->0.percent_at(x));
                }
            }
            assert forall|x: u32| #[trigger] self.resolves(x) == was.resolves(x) by {
                assert(self.tops(x) == was.tops(x));
                if !was.tops(x) && !was.tops(id) && was.base is Some {
                    assert(self.base->0.resolves(x) == was.base->0.resolves(x));
                }
            }
            assert forall|disk: Disk| #[trigger] base_opened(was, disk) implies base_opened(
                *self,
                disk,
            ) by {
                if !was.tops(id) && was.base is Some {
                    assert(opened(*was.base->0, disk));
                    assert(opened(*self.base->0, disk));
                }
            }
            assert forall|disk: Disk| #[trigger] opened(was, disk) implies opened(
                *self,
                disk,
            ) by {
                assert(base_opened(was, disk));
                assert(base_opened(*self, disk));
            }
            assert forall|x: u32| #[trigger] self.level_of(x) == was.level_of(x) by {
                assert(self.tops(x) == was.tops(x));
                if !was.tops(x) && !was.tops(id) && was.base is Some {
                    assert(self.base->0.level_of(x) == was.base->0.level_of(x));
                }
            }
            assert forall|disk: Disk, x: u32| #[trigger]
                self.page_at(disk, x) == was.page_at(disk, x) by {
                assert(self.tops(x) == was.tops(x));
                if !was.tops(x) && !was.tops(id) && was.base is Some {
                    assert(self.base->0.page_at(disk, x) == was.base->0.page_at(disk, x));
                }
            }
            assert forall|disk: Disk| #[trigger]
                was.faithful(disk) && has_page(disk[was.level_of(id) as int], id) && file_page(
                    disk[was.level_of(id) as int],
                    id,
                ) == page@ implies self.faithful(disk) by {
                if !was.tops(id) && was.base is Some {
                    assert(was.base->0.faithful(disk));
                    assert(was.level_of(id) == was.base->0.level_of(id));
                    assert(self.base->0.faithful(disk));
                }
            }
        }
    }

    /// Loads a page among the dirty ones and returns a copy. Base pages are marked as copied-up
    /// on first write.
    pub fn page_mut(&mut self, id: u32) -> (r: Fetch<Page>)
        requires
            old(self).wf(),
        ensures
            final(self).wf(),
            final(self).meta == old(self).meta,
            final(self).level == old(self).level,
            final(self).base == old(self).base,
            final(self).clean@ == old(self).clean@,
            match r {
                Fetch::Ready(p) => {
                    &&& old(self).store().contains_key(id)
                    &&& p@ == old(self).store()[id]
                    &&& p.percent() == old(self).percent_at(id)
                    &&& forall|x: u32| #[trigger]
                        final(self).percent_at(x) == old(self).percent_at(x)
                    &&& final(self).store() == old(self).store()
                    &&& bytes_of(final(self).dirty@) == bytes_of(old(self).dirty@).insert(id, p@)
                    &&& final(self).copied@ == marked(*old(self), id)
                    &&& forall|disk: Disk| #[trigger]
                        old(self).faithful(disk) ==> {
                            &&& final(self).faithful(disk)
                            &&& final(self).pages(disk) == old(self).pages(disk)
                        }
                },
                Fetch::Missing(m) => {
                    &&& !old(self).store().contains_key(id)
                    &&& m == (PageRequest { level: old(self).level_of(id), id })
                    &&& *final(self) == *old(self)
                },
            },
    {
        match self.read_page(id) {
            Fetch::Ready(page) => {
                self.write_page(id, page.clone());
                proof {
                    assert(self.store() =~= old(self).store());
                    assert(bytes_of(self.dirty@) =~= bytes_of(old(self).dirty@).insert(id, page@));
                    assert forall|disk: Disk| #[trigger] old(self).faithful(disk) implies
                    self.faithful(disk) && self.pages(disk) == old(self).pages(disk) by {
                        old(self).lemma_store(disk);
                        assert(self.pages(disk) == old(self).pages(disk).insert(id, page@));
                        assert(self.pages(disk) =~= old(self).pages(disk));
                    }
                }
                Fetch::Ready(page)
            },
            Fetch::Missing(m) => Fetch::Missing(m),
        }
    }

    /// Buffers a page directly (e.g. a freshly split page).
    #[verifier::spinoff_prover]
    #[verifier::rlimit(60)]
    pub fn write_page(&mut self, id: u32, page: Page)
        requires
            old(self).wf(),
        ensures
            final(self).wf(),
            final(self).meta == old(self).meta,
            final(self).level == old(self).level,
            final(self).base == old(self).base,
            final(self).clean@ == old(self).clean@,
            final(self).dirty@ == old(self).dirty@.insert(id, page),
            final(self).copied@ == marked(*old(self), id),
            final(self).copied@.len() == old(self).copied@.len(),
            forall|x: int|
                0 <= x < old(self).copied@.len() ==> #[trigger] final(self).copied@[x] == (x == id
                    || old(self).copied@[x]),
            final(self).store() == old(self).store().insert(id, page@),
            forall|x: u32| #[trigger]
                final(self).percent_at(x) == if x == id {
                    page.percent()
                } else {
                    old(self).percent_at(x)
                },
            forall|disk: Disk| #[trigger]
                final(self).pages(disk) == old(self).pages(disk).insert(id, page@),
            forall|disk: Disk| #[trigger] old(self).faithful(disk) ==> final(self).faithful(disk),
    {
        broadcast use group_btree_axioms;

        if id < self.meta.base_offset {
            self.copied[id as usize] = true;
        }
        self.dirty.insert(id, page);
        proof {
            let was = *old(self);
            assert forall|x: u32| #[trigger] self.percent_at(x) == if x == id {
                page.percent()
            } else {
                was.percent_at(x)
            } by {
                assert(x != id ==> self.tops(x) == was.tops(x));
            }
            assert(self.store() =~= was.store().insert(id, page@)) by {
                assert forall|x: u32| #[trigger] self.cached(x) == if x == id {
                    Some(page@)
                } else {
                    was.cached(x)
                } by {
                    assert(x != id ==> self.tops(x) == was.tops(x));
                }
            }
            assert forall|disk: Disk| #[trigger] self.pages(disk) == was.pages(disk).insert(
                id,
                page@,
            ) by {
                assert forall|x: u32| #[trigger] self.page_at(disk, x) == if x == id {
                    Some(page@)
                } else {
                    was.page_at(disk, x)
                } by {
                    assert(x != id ==> self.tops(x) == was.tops(x));
                }
                assert(self.pages(disk) =~= was.pages(disk).insert(id, page@));
            }
        }
    }

    /// Allocates a fresh page id (always a native id >= base_offset).
    pub fn allocate(&mut self) -> (id: u32)
        requires
            old(self).wf(),
            old(self).meta.num_pages < u32::MAX,
        ensures
            final(self).wf(),
            id == old(self).meta.num_pages,
            final(self).meta == (Meta {
                num_pages: (old(self).meta.num_pages + 1) as u32,
                ..old(self).meta
            }),
            final(self).level == old(self).level,
            final(self).base == old(self).base,
            final(self).clean@ == old(self).clean@,
            final(self).dirty@ == old(self).dirty@,
            final(self).copied@ == old(self).copied@,
            final(self).store() == old(self).store(),
            forall|x: u32| #[trigger] final(self).percent_at(x) == old(self).percent_at(x),
            forall|disk: Disk| #[trigger] final(self).pages(disk) == old(self).pages(disk),
            forall|disk: Disk| #[trigger] old(self).faithful(disk) ==> final(self).faithful(disk),
    {
        let id: u32 = self.meta.num_pages;
        self.meta.num_pages = id + 1;
        proof {
            old(self).lemma_same_pages(*self);
        }
        id
    }

    /// Pagers that differ in root, height and number of pages only hold the same pages.
    pub proof fn lemma_same_pages(&self, other: FilePager)
        requires
            self.wf(),
            other.level == self.level,
            other.base == self.base,
            other.clean@ == self.clean@,
            other.dirty@ == self.dirty@,
            other.copied@ == self.copied@,
            other.meta.base_offset == self.meta.base_offset,
        ensures
            other.wf(),
            other.store() == self.store(),
            forall|x: u32| #[trigger] other.percent_at(x) == self.percent_at(x),
            forall|x: u32| #[trigger] other.level_of(x) == self.level_of(x),
            forall|disk: Disk| #[trigger] other.pages(disk) == self.pages(disk),
            forall|disk: Disk| #[trigger] self.faithful(disk) ==> other.faithful(disk),
    {
        assert forall|x: u32| #[trigger] other.cached(x) == self.cached(x) by {
            assert(other.tops(x) == self.tops(x));
        }
        assert forall|x: u32| #[trigger] other.percent_at(x) == self.percent_at(x) by {
            assert(other.tops(x) == self.tops(x));
        }
        assert forall|x: u32| #[trigger] other.level_of(x) == self.level_of(x) by {
            assert(other.tops(x) == self.tops(x));
        }
        assert(other.store() =~= self.store());
        assert forall|disk: Disk| #[trigger] other.pages(disk) == self.pages(disk) by {
            assert forall|x: u32| #[trigger] other.page_at(disk, x) == self.page_at(disk, x) by {
                assert(other.tops(x) == self.tops(x));
            }
            assert(other.pages(disk) =~= self.pages(disk));
        }
    }

    /// Allocates and registers a new empty leaf page.
    pub fn new_page(&mut self) -> (id: u32)
        requires
            old(self).wf(),
            old(self).meta.num_pages < u32::MAX,
        ensures
            final(self).wf(),
            id == old(self).meta.num_pages,
            final(self).meta == (Meta {
                num_pages: (old(self).meta.num_pages + 1) as u32,
                ..old(self).meta
            }),
            final(self).level == old(self).level,
            final(self).base == old(self).base,
            final(self).clean@ == old(self).clean@,
            bytes_of(final(self).dirty@) == bytes_of(old(self).dirty@).insert(id, empty_page(id)),
            final(self).copied@ == marked(*old(self), id),
            final(self).store() == old(self).store().insert(id, empty_page(id)),
            forall|x: u32| #[trigger]
                final(self).percent_at(x) == if x == id {
                    75
                } else {
                    old(self).percent_at(x)
                },
            forall|disk: Disk| #[trigger]
                final(self).pages(disk) == old(self).pages(disk).insert(id, empty_page(id)),
            forall|disk: Disk| #[trigger] old(self).faithful(disk) ==> final(self).faithful(disk),
    {
        let id: u32 = self.allocate();
        let page: Page = Page::new(id);
        self.write_page(id, page);
        assert(bytes_of(self.dirty@) =~= bytes_of(old(self).dirty@).insert(id, empty_page(id)));
        id
    }

    /// Makes `root` the root of a tree of the given height.
    pub fn set_root(&mut self, root: u32, height: u32)
        requires
            old(self).wf(),
        ensures
            final(self).wf(),
            final(self).meta == (Meta { root, height, ..old(self).meta }),
            final(self).level == old(self).level,
            final(self).base == old(self).base,
            final(self).clean@ == old(self).clean@,
            final(self).dirty@ == old(self).dirty@,
            final(self).copied@ == old(self).copied@,
            final(self).store() == old(self).store(),
            forall|x: u32| #[trigger] final(self).percent_at(x) == old(self).percent_at(x),
            forall|disk: Disk| #[trigger] final(self).pages(disk) == old(self).pages(disk),
            forall|disk: Disk| #[trigger] old(self).faithful(disk) ==> final(self).faithful(disk),
    {
        self.meta.root = root;
        self.meta.height = height;
        proof {
            old(self).lemma_same_pages(*self);
        }
    }

    /// The start of a pager for a file of `len` bytes: a fresh standalone file gets an empty
    /// root leaf, any other has its meta page read first.
    pub fn open_inner(len: u64, writable: bool) -> (r: Option<FilePager>)
        ensures
            r is Some <==> writable && len == 0,
            match r {
                Some(p) => {
                    &&& p.wf()
                    &&& p.meta@ == fresh_meta()
                    &&& p.meta.root == 1 && p.meta.num_pages == 2 && p.meta.height == 1
                    &&& p.meta.base_offset == 0 && p.meta.base_path is None
                    &&& p.level == 0
                    &&& p.base is None
                    &&& p.clean@ == Map::<u32, Page>::empty()
                    &&& bytes_of(p.dirty@) == map![1u32 => empty_page(1)]
                    &&& forall|disk: Disk| #[trigger] p.faithful(disk) <==> disk.len() > 0
                    &&& forall|disk: Disk|
                        (#[trigger] p.pages(disk)).contains_key(1) && p.pages(disk)[1]
                            == empty_page(1)
                },
                None => true,
            },
    {
        broadcast use group_btree_axioms;

        if !writable || len != 0 {
            return None;
        }
        let meta: Meta = Meta {
            root: 1,
            num_pages: 2,
            height: 1,
            base_offset: 0,
            base_path: None,
        };
        let mut pager: FilePager = FilePager {
            meta,
            level: 0,
            dirty: BTreeMap::new(),
            clean: BTreeMap::new(),
            base: None,
            copied: Vec::new(),
        };
        pager.write_page(1, Page::new(1));
        assert(bytes_of(pager.dirty@) =~= map![1u32 => empty_page(1)]);
        Some(pager)
    }

    /// The pager of a file whose meta page is `meta`, above the pager of its base. `flags` are
    /// the bytes behind the last page; a file without base has none.
    pub fn resume(meta: Meta, base: Option<FilePager>, flags: &[u8]) -> (p: FilePager)
        requires
            meta.base_path is Some <==> base is Some,
            match base {
                Some(b) => b.wf() && b.dirty@ == Map::<u32, Page>::empty() && b.level < u32::MAX,
                None => true,
            },
        ensures
            p.wf(),
            p.meta == meta,
            p.dirty@ == Map::<u32, Page>::empty(),
            p.clean@ == Map::<u32, Page>::empty(),
            match base {
                Some(b) => {
                    &&& p.base == Some(Box::new(b))
                    &&& p.level == b.level + 1
                    &&& p.copied@ == unpacked(flags@, meta.base_offset as nat)
                },
                None => {
                    &&& p.base is None
                    &&& p.level == 0
                    &&& p.copied@ == Seq::new(meta.base_offset as nat, |i: int| false)
                },
            },
            forall|disk: Disk|
                p.level < disk.len() && has_page(disk[p.level as int], 0) && decodes(
                    file_page(disk[p.level as int], 0),
                    meta@,
                ) && match base {
                    Some(b) => {
                        &&& opened(b, disk)
                        &&& b.faithful(disk)
                        &&& flags@ == file_flags(
                            disk[p.level as int],
                            meta.num_pages,
                            packed_len(meta.base_offset as int),
                        )
                    },
                    None => true,
                } ==> #[trigger] opened(p, disk) && p.faithful(disk),
    {
        match base {
            Some(b) => {
                let copied: Vec<bool> = unpack_bits(flags, meta.base_offset as usize);
                let level: u32 = b.level + 1;
                FilePager {
                    meta,
                    level,
                    dirty: BTreeMap::new(),
                    clean: BTreeMap::new(),
                    base: Some(Box::new(b)),
                    copied,
                }
            },
            None => {
                let none: [u8; 0] = [];
                let copied: Vec<bool> = unpack_bits(&none, meta.base_offset as usize);
                proof {
                    assert(none@ =~= Seq::<u8>::empty());
                    assert(copied@ =~= Seq::new(meta.base_offset as nat, |i: int| false));
                }
                FilePager {
                    meta,
                    level: 0,
                    dirty: BTreeMap::new(),
                    clean: BTreeMap::new(),
                    base: None,
                    copied,
                }
            },
        }
    }

    /// The pager of a fresh overlay file that reads through `base`, the file at `base_path`.
    pub fn create_overlay(base: FilePager, base_path: String) -> (p: FilePager)
        requires
            base.wf(),
            base.dirty@ == Map::<u32, Page>::empty(),
            base.level < u32::MAX,
        ensures
            p.wf(),
            p.meta@ == (MetaModel {
                base_offset: base.meta.num_pages,
                base_path: Some(base_path@),
                ..base.meta@
            }),
            p.level == base.level + 1,
            p.base == Some(Box::new(base)),
            p.dirty@ == Map::<u32, Page>::empty(),
            p.clean@ == Map::<u32, Page>::empty(),
            p.copied@ == Seq::new(base.meta.num_pages as nat, |i: int| false),
            forall|disk: Disk, id: u32|
                id < base.meta.num_pages ==> #[trigger] p.page_at(disk, id) == base.page_at(
                    disk,
                    id,
                ),
            forall|disk: Disk|
                base.faithful(disk) && disk.len() > base.level + 1 ==> #[trigger] p.faithful(disk),
    {
        let base_offset: u32 = base.meta.num_pages;
        let meta: Meta = Meta {
            root: base.meta.root,
            num_pages: base_offset,
            height: base.meta.height,
            base_offset,
            base_path: Some(base_path),
        };
        let level: u32 = base.level + 1;
        let copied: Vec<bool> = vec![false;base_offset as usize];
        assert(copied@ =~= Seq::new(base.meta.num_pages as nat, |i: int| false));
        let p: FilePager = FilePager {
            meta,
            level,
            dirty: BTreeMap::new(),
            clean: BTreeMap::new(),
            base: Some(Box::new(base)),
            copied,
        };
        proof {
            assert forall|disk: Disk, id: u32| id < base.meta.num_pages implies #[trigger] p.page_at(
                disk,
                id,
            ) == base.page_at(disk, id) by {
                assert(!p.tops(id));
            }
        }
        p
    }

    /// Drops the pages that were read from files.
    pub fn forget(&mut self)
        requires
            old(self).wf(),
        ensures
            final(self).wf(),
            final(self).meta == old(self).meta,
            final(self).level == old(self).level,
            final(self).dirty@ == old(self).dirty@,
            final(self).copied@ == old(self).copied@,
            forall|x: u32| #[trigger]
                final(self).cached(x) == if old(self).tops(x) && old(self).dirty@.contains_key(x) {
                    Some(old(self).dirty@[x]@)
                } else {
                    None
                },
            forall|x: u32| #[trigger] final(self).level_of(x) == old(self).level_of(x),
            forall|x: u32| #[trigger] final(self).resolves(x) == old(self).resolves(x),
            forall|disk: Disk, x: u32| #[trigger]
                final(self).page_at(disk, x) == old(self).page_at(disk, x),
            forall|disk: Disk| #[trigger] old(self).faithful(disk) ==> final(self).faithful(disk),
            forall|disk: Disk|
                #![trigger base_opened(*old(self), disk)]
                #![trigger base_opened(*final(self), disk)]
                base_opened(*old(self), disk) ==> base_opened(*final(self), disk),
            forall|disk: Disk|
                #![trigger opened(*old(self), disk)]
                #![trigger opened(*final(self), disk)]
                opened(*old(self), disk) ==> opened(*final(self), disk),
        decreases *old(self),
    {
        self.clean.clear();
        match &mut self.base {
            Some(b) => {
                b.forget();
            },
            None => {},
        }
        proof {
            let was = *old(self);
            assert forall|x: u32| #[trigger] self.cached(x) == if was.tops(x)
                && was.dirty@.contains_key(x) {
                Some(was.dirty@[x]@)
            } else {
                None
            } by {
                assert(self.tops(x) == was.tops(x));
                if !was.tops(x) && was.base is Some {
                    assert(self.base->0.cached(x) is None);
                }
            }
            assert forall|x: u32| #[trigger] self.resolves(x) == was.resolves(x) by {
                assert(self.tops(x) == was.tops(x));
                if !was.tops(x) && was.base is Some {
                    assert(self.base->0.resolves(x) == was.base->0.resolves(x));
                }
            }
            assert forall|disk: Disk| #[trigger] base_opened(was, disk) implies base_opened(
                *self,
                disk,
            ) by {
                if was.base is Some {
                    assert(opened(*was.base->0, disk));
                    assert(opened(*self.base->0, disk));
                }
            }
            assert forall|disk: Disk| #[trigger] opened(was, disk) implies opened(
                *self,
                disk,
            ) by {
                assert(base_opened(was, disk));
                assert(base_opened(*self, disk));
            }
            assert forall|x: u32| #[trigger] self.level_of(x) == was.level_of(x) by {
                assert(self.tops(x) == was.tops(x));
                if !was.tops(x) && was.base is Some {
                    assert(self.base->0.level_of(x) == was.base->0.level_of(x));
                }
            }
            assert forall|disk: Disk, x: u32| #[trigger]
                self.page_at(disk, x) == was.page_at(disk, x) by {
                assert(self.tops(x) == was.tops(x));
                if !was.tops(x) && was.base is Some {
                    assert(self.base->0.page_at(disk, x) == was.base->0.page_at(disk, x));
                }
            }
            assert forall|disk: Disk| #[trigger] was.faithful(disk) implies self.faithful(disk) by {
                if was.base is Some {
                    assert(was.base->0.faithful(disk));
                    assert(self.base->0.faithful(disk));
                }
            }
        }
    }
}

} // verus!
