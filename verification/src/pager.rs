//! The page cache.
//!
//! A `Pager` maps a page index to an in-memory page buffer of exactly
//! `PAGE_SIZE` bytes. Pages become resident lazily: the caller, who owns the
//! backing file, asks `needs_load` before a read and hands the loaded bytes
//! to `install_page`; a page touched for writing is materialized zero-filled
//! without a load, since a page written for the first time is assumed new.
//! At close the pager hands back a flush plan — every resident page below
//! `num_pages`, in ascending index order — for the caller to write out; a
//! pager dropped without a close loses its mutations.

use vstd::prelude::*;

use crate::db::{StorageError, TABLE_MAX_PAGES};

verus! {

pub const PAGE_SIZE: usize = 4096;

/// A page full of zero bytes, the logical content of every page slot that
/// was never written.
pub open spec fn zero_page() -> Seq<u8> {
    Seq::new(PAGE_SIZE as nat, |j: int| 0u8)
}

/// The page with `bytes` written over it starting at `offset`.
pub open spec fn spec_write_at(page: Seq<u8>, offset: int, bytes: Seq<u8>) -> Seq<u8>
    recommends
        0 <= offset,
        offset + bytes.len() <= page.len(),
{
    Seq::new(
        page.len(),
        |j: int|
            if offset <= j < offset + bytes.len() {
                bytes[j - offset]
            } else {
                page[j]
            },
    )
}

/// The in-memory page table over one backing file.
pub struct Pager {
    /// One slot per page index; `None` while the page is not resident.
    pub pages: Vec<Option<Vec<u8>>>,
    /// How many pages exist on disk or in memory: never an undercount, since
    /// a page becoming resident for writing increments it.
    pub num_pages: usize,
}

impl Pager {
    /// The page table is full-width, every resident page holds exactly
    /// `PAGE_SIZE` bytes, and residency stays below `num_pages`.
    pub open spec fn wf(self) -> bool {
        &&& self.pages@.len() == TABLE_MAX_PAGES
        &&& self.num_pages <= TABLE_MAX_PAGES
        &&& forall|i: int|
            0 <= i < TABLE_MAX_PAGES && #[trigger] self.pages@[i] is Some ==> self.pages@[i]->0@.len()
                == PAGE_SIZE
        &&& forall|i: int| self.num_pages <= i < TABLE_MAX_PAGES ==> self.pages@[i] is None
    }

    /// The page is held in memory.
    pub open spec fn is_resident(self, i: int) -> bool {
        self.pages@[i] is Some
    }

    /// The bytes of a resident page.
    pub open spec fn page_view(self, i: int) -> Seq<u8>
        recommends
            self.is_resident(i),
    {
        self.pages@[i]->0@
    }

    /// Sets up the page table for a backing file of the given length, which
    /// must hold whole pages and no more than the table can address.
    pub fn new(file_len: u64) -> (r: Result<Pager, StorageError>)
        ensures
            r is Ok <==> (file_len as int % (PAGE_SIZE as int) == 0 && file_len as int / (
            PAGE_SIZE as int) <= TABLE_MAX_PAGES),
            r matches Ok(p) ==> ({
                &&& p.wf()
                &&& p.num_pages == file_len as int / (PAGE_SIZE as int)
                &&& forall|i: int| 0 <= i < TABLE_MAX_PAGES ==> #[trigger] p.pages@[i] is None
            }),
            r matches Err(e) ==> e == StorageError::CorruptFile,
    {
        if file_len % (PAGE_SIZE as u64) != 0 {
            return Err(StorageError::CorruptFile);
        }
        let pages_on_disk: u64 = file_len / (PAGE_SIZE as u64);
        if pages_on_disk > (TABLE_MAX_PAGES as u64) {
            return Err(StorageError::CorruptFile);
        }
        let num_pages: usize = pages_on_disk as usize;
        let mut pages: Vec<Option<Vec<u8>>> = Vec::new();
        let mut i: usize = 0;
        while i < TABLE_MAX_PAGES
            invariant
                i <= TABLE_MAX_PAGES,
                pages@.len() == i,
                forall|j: int| 0 <= j < i ==> pages@[j] is None,
            decreases TABLE_MAX_PAGES - i,
        {
            pages.push(None);
            i = i + 1;
        }
        Ok(Pager { pages, num_pages })
    }

    /// True when reading the page requires loading it from the file first.
    pub fn needs_load(&self, page_index: usize) -> (r: bool)
        requires
            self.wf(),
            page_index < TABLE_MAX_PAGES,
        ensures
            r == !self.is_resident(page_index as int),
    {
        self.pages[page_index].is_none()
    }

    /// Hands the pager a page's bytes as loaded from the backing file. Only
    /// pages counted by `num_pages` are ever loaded, and loading changes no
    /// other slot and does not touch `num_pages`.
    pub fn install_page(&mut self, page_index: usize, buf: Vec<u8>)
        requires
            old(self).wf(),
            page_index < old(self).num_pages,
            !old(self).is_resident(page_index as int),
            buf@.len() == PAGE_SIZE,
        ensures
            final(self).wf(),
            final(self).num_pages == old(self).num_pages,
            final(self).is_resident(page_index as int),
            final(self).page_view(page_index as int) == buf@,
            forall|i: int|
                0 <= i < TABLE_MAX_PAGES && i != page_index ==> final(self).pages@[i] == old(
                    self,
                ).pages@[i],
    {
        self.pages[page_index] = Some(buf);
    }

    /// A read-only view of a resident page.
    pub fn page_to_read(&self, page_index: usize) -> (page: &Vec<u8>)
        requires
            self.wf(),
            page_index < TABLE_MAX_PAGES,
            self.is_resident(page_index as int),
        ensures
            page@ == self.page_view(page_index as int),
            page@.len() == PAGE_SIZE,
    {
        self.pages[page_index].as_ref().unwrap()
    }

    /// Writes bytes at an offset inside a page, materializing the page
    /// first when it is not resident: the fresh page starts zero-filled (it
    /// is not read from the file — a page written for the first time is
    /// assumed new) and becoming resident for writing increments
    /// `num_pages`, so writes target a resident page or the next fresh one.
    pub fn page_to_write(&mut self, page_index: usize, offset: usize, bytes: &Vec<u8>)
        requires
            old(self).wf(),
            page_index < TABLE_MAX_PAGES,
            offset + bytes@.len() <= PAGE_SIZE,
            old(self).is_resident(page_index as int) || page_index == old(self).num_pages,
        ensures
            final(self).wf(),
            final(self).is_resident(page_index as int),
            final(self).num_pages == if old(self).is_resident(page_index as int) {
                old(self).num_pages as int
            } else {
                old(self).num_pages + 1
            },
            final(self).page_view(page_index as int) == spec_write_at(
                if old(self).is_resident(page_index as int) {
                    old(self).page_view(page_index as int)
                } else {
                    zero_page()
                },
                offset as int,
                bytes@,
            ),
            forall|i: int|
                0 <= i < TABLE_MAX_PAGES && i != page_index ==> final(self).pages@[i] == old(
                    self,
                ).pages@[i],
    {
        let ghost base = if old(self).is_resident(page_index as int) {
            old(self).page_view(page_index as int)
        } else {
            zero_page()
        };
        let mut page: Vec<u8> = match self.pages[page_index].take() {
            Some(p) => p,
            None => {
                let mut fresh: Vec<u8> = Vec::new();
                let mut j: usize = 0;
                while j < PAGE_SIZE
                    invariant
                        j <= PAGE_SIZE,
                        fresh@.len() == j,
                        forall|k: int| 0 <= k < j ==> fresh@[k] == 0u8,
                    decreases PAGE_SIZE - j,
                {
                    fresh.push(0);
                    j = j + 1;
                }
                self.num_pages = self.num_pages + 1;
                assert(fresh@ =~= zero_page());
                fresh
            },
        };
        assert(page@ == base);
        let n: usize = bytes.len();
        let mut k: usize = 0;
        while k < n
            invariant
                k <= n,
                n == bytes@.len(),
                offset + n <= PAGE_SIZE,
                page@.len() == PAGE_SIZE,
                forall|j: int| offset <= j < offset + k ==> page@[j] == bytes@[j - offset],
                forall|j: int| 0 <= j < page@.len() && !(offset <= j < offset + k) ==> page@[j]
                    == base[j],
                base.len() == PAGE_SIZE,
        decreases n - k,
        {
            page[offset + k] = bytes[k];
            k = k + 1;
        }
        assert(page@ =~= spec_write_at(base, offset as int, bytes@));
        self.pages[page_index] = Some(page);
    }

    /// The flush plan: one entry per page index below `num_pages`, holding
    /// the page's bytes when it is resident. The caller writes entry `i` at
    /// file offset `i * PAGE_SIZE`, in ascending order, and every resident
    /// slot is written unconditionally — there is no dirty-bit distinction.
    pub fn close(&self) -> (plan: Vec<Option<Vec<u8>>>)
        requires
            self.wf(),
        ensures
            plan@.len() == self.num_pages,
            forall|i: int|
                0 <= i < self.num_pages ==> (plan@[i] is Some <==> self.is_resident(i)),
            forall|i: int|
                0 <= i < self.num_pages && self.is_resident(i) ==> plan@[i]->0@ == self.page_view(
                    i,
                ),
    {
        let mut plan: Vec<Option<Vec<u8>>> = Vec::new();
        let mut i: usize = 0;
        while i < self.num_pages
            invariant
                self.wf(),
                i <= self.num_pages,
                plan@.len() == i,
                forall|j: int| 0 <= j < i ==> (plan@[j] is Some <==> self.is_resident(j)),
                forall|j: int|
                    0 <= j < i && self.is_resident(j) ==> plan@[j]->0@ == self.page_view(j),
            decreases self.num_pages - i,
        {
            match self.pages[i].as_ref() {
                Some(p) => {
                    let copy = copy_bytes(p);
                    plan.push(Some(copy));
                },
                None => {
                    plan.push(None);
                },
            }
            i = i + 1;
        }
        plan
    }
}

/// A fresh vector holding the same bytes.
fn copy_bytes(src: &Vec<u8>) -> (r: Vec<u8>)
    ensures
        r@ == src@,
{
    let mut r: Vec<u8> = Vec::new();
    let n: usize = src.len();
    let mut i: usize = 0;
    while i < n
        invariant
            i <= n,
            n == src@.len(),
            r@ == src@.take(i as int),
        decreases n - i,
    {
        let b: u8 = src[i];
        r.push(b);
        i = i + 1;
        assert(r@ =~= src@.take(i as int));
    }
    assert(src@.take(n as int) =~= src@);
    r
}

} // verus!
