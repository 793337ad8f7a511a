//! The pager: `MAX_PAGES` slots, each unloaded or holding a resident page.
//!
//! The pager owns the in-memory side of the file.  A page number resolves to
//! a slot; a slot whose page lives only on disk stays `Unloaded` until the
//! caller reads the page's bytes and installs them, and a page past the end
//! of the file is materialized fresh and empty.  The file itself stays with
//! the caller: the pager tells it which pages need loading and what bytes a
//! resident page must be written back as, and never does I/O of its own.
//!
//! The file layout is fixed: page `p` starts at byte `p * PAGE_SIZE`; every
//! on-disk page except the last occupies `PAGE_SIZE` bytes; the last may be
//! partial, and the rows it holds are exactly the whole `ROW_SIZE` blocks
//! its remaining length covers.

use vstd::prelude::*;
use vstd::math::min;
use crate::codec::clean_row_block;
use crate::page::Page;
use crate::page::row_block;
use crate::page::spec_decode_rows;
use crate::page::spec_page_image;
use crate::page::wf_page;
use crate::row::MAX_PAGES;
use crate::row::MAX_TOTAL_ROWS;
use crate::row::PAGE_SIZE;
use crate::row::ROWS_PER_PAGE;
use crate::row::ROW_SIZE;
use crate::row::Row;
use crate::row::RowModel;
use crate::row::valid_row;

verus! {

/// What the pager can fail with: a page number past the slot array, or a
/// corrupt on-disk page.
#[derive(Debug, PartialEq, Eq)]
pub enum PagerError {
    PageNumberOutOfBounds,
    DecodeError,
}

/// One slot of the pager: nothing yet, or an owned resident page.
pub enum PageSlot {
    Unloaded,
    Resident(Page),
}

/// How many rows the on-disk file holds on page `p`: a page fully inside
/// the file is full, a page past the end holds nothing, and the final
/// partial page holds one row per whole `ROW_SIZE` block of what remains.
pub open spec fn disk_rows_on_page(file_len: int, p: int) -> int {
    let start = p * PAGE_SIZE;
    if file_len >= start + PAGE_SIZE {
        ROWS_PER_PAGE as int
    } else if file_len <= start {
        0
    } else {
        min((file_len - start) / (ROW_SIZE as int), ROWS_PER_PAGE as int)
    }
}

/// How many rows the on-disk file holds in all: its full pages, plus the
/// rows implied by the remainder.
pub open spec fn disk_num_rows(file_len: int) -> int {
    (file_len / (PAGE_SIZE as int)) * (ROWS_PER_PAGE as int) + min(
        (file_len % (PAGE_SIZE as int)) / (ROW_SIZE as int),
        ROWS_PER_PAGE as int,
    )
}

/// How many rows a table of `nrows` rows keeps on page `p`: rows are packed
/// in page order, so every page before the tail is full and every page
/// after it is empty.
pub open spec fn rows_on_page(nrows: int, p: int) -> int {
    let lo = p * ROWS_PER_PAGE;
    if nrows <= lo {
        0
    } else if nrows >= lo + ROWS_PER_PAGE {
        ROWS_PER_PAGE as int
    } else {
        nrows - lo
    }
}

/// The per-page row counts a file implies agree with the packed counts of
/// its total: reading the file length back gives every page the row count
/// it had.
pub proof fn lemma_disk_counts_are_packed(file_len: int)
    requires
        0 <= file_len <= MAX_PAGES * PAGE_SIZE,
    ensures
        0 <= disk_num_rows(file_len) <= MAX_TOTAL_ROWS,
        forall|p: int|
            0 <= p < MAX_PAGES ==> #[trigger] rows_on_page(disk_num_rows(file_len), p)
                == disk_rows_on_page(file_len, p),
{
    let k: int = file_len / (PAGE_SIZE as int);
    let rem: int = file_len % (PAGE_SIZE as int);
    vstd::arithmetic::div_mod::lemma_fundamental_div_mod(file_len, PAGE_SIZE as int);
    assert(file_len == PAGE_SIZE * k + rem);
    assert(0 <= rem < PAGE_SIZE) by {
        vstd::arithmetic::div_mod::lemma_mod_bound(file_len, PAGE_SIZE as int);
    }
    assert(0 <= k <= MAX_PAGES) by {
        vstd::arithmetic::div_mod::lemma_div_pos_is_pos(file_len, PAGE_SIZE as int);
        vstd::arithmetic::div_mod::lemma_div_is_ordered(
            file_len,
            MAX_PAGES * PAGE_SIZE,
            PAGE_SIZE as int,
        );
    }
    let tail: int = min(rem / (ROW_SIZE as int), ROWS_PER_PAGE as int);
    assert(0 <= tail <= ROWS_PER_PAGE) by {
        vstd::arithmetic::div_mod::lemma_div_pos_is_pos(rem, ROW_SIZE as int);
    }
    assert(rem / (ROW_SIZE as int) * (ROW_SIZE as int) <= rem) by {
        vstd::arithmetic::div_mod::lemma_fundamental_div_mod(rem, ROW_SIZE as int);
        vstd::arithmetic::div_mod::lemma_mod_bound(rem, ROW_SIZE as int);
    }
    let n: int = disk_num_rows(file_len);
    assert(n == k * ROWS_PER_PAGE + tail);
    if k == MAX_PAGES {
        assert(file_len == MAX_PAGES * PAGE_SIZE);
        assert(rem == 0);
    }
    assert forall|p: int| 0 <= p < MAX_PAGES implies #[trigger] rows_on_page(n, p)
        == disk_rows_on_page(file_len, p) by {
        if p < k {
            assert(file_len >= p * PAGE_SIZE + PAGE_SIZE);
            assert(n >= p * ROWS_PER_PAGE + ROWS_PER_PAGE);
        } else if p == k {
            assert(file_len - p * PAGE_SIZE == rem);
            if rem == 0 {
                assert(rows_on_page(n, p) == 0);
            } else if tail == ROWS_PER_PAGE {
                assert(rows_on_page(n, p) == ROWS_PER_PAGE);
            }
        } else {
            assert(n <= p * ROWS_PER_PAGE);
            assert(file_len <= p * PAGE_SIZE);
        }
    }
}

/// The pager: the length the backing file had when it was opened, and one
/// slot per page number.
pub struct Pager {
    pub file_len: usize,
    pub slots: Vec<PageSlot>,
}

impl Pager {
    /// Well-formedness: the slot array is complete, the recorded file
    /// length is within the table's maximum, and every resident page is
    /// well formed.
    pub open spec fn wf(self) -> bool {
        &&& self.slots@.len() == MAX_PAGES
        &&& self.file_len <= MAX_PAGES * PAGE_SIZE
        &&& forall|p: int|
            0 <= p < MAX_PAGES ==> (#[trigger] self.slots@[p] matches PageSlot::Resident(pg)
                ==> wf_page(pg@))
    }

    /// Whether slot `p` holds a resident page.
    pub open spec fn is_resident(self, p: int) -> bool {
        self.slots@[p] is Resident
    }

    /// The rows slot `p` holds; an unloaded slot holds none in memory.
    pub open spec fn page_rows(self, p: int) -> Seq<RowModel> {
        match self.slots@[p] {
            PageSlot::Resident(pg) => pg@,
            PageSlot::Unloaded => Seq::empty(),
        }
    }

    /// A pager over a file of `file_len` bytes; no page is loaded yet.
    pub fn new(file_len: usize) -> (pager: Pager)
        requires
            file_len <= MAX_PAGES * PAGE_SIZE,
        ensures
            pager.wf(),
            pager.file_len == file_len,
            forall|p: int| 0 <= p < MAX_PAGES ==> !pager.is_resident(p),
    {
        let mut slots: Vec<PageSlot> = Vec::new();
        let mut i: usize = 0;
        while i < MAX_PAGES
            invariant
                0 <= i <= MAX_PAGES,
                slots@.len() == i,
                forall|p: int| 0 <= p < i ==> slots@[p] is Unloaded,
            decreases MAX_PAGES - i,
        {
            slots.push(PageSlot::Unloaded);
            i = i + 1;
        }
        Pager { file_len: file_len, slots: slots }
    }

    /// How many rows the backing file holds on page `p`.
    pub fn disk_rows_for_page(&self, p: usize) -> (n: usize)
        requires
            self.wf(),
            p < MAX_PAGES,
        ensures
            n == disk_rows_on_page(self.file_len as int, p as int),
            n <= ROWS_PER_PAGE,
    {
        let start: usize = p * PAGE_SIZE;
        if self.file_len >= start + PAGE_SIZE {
            ROWS_PER_PAGE
        } else if self.file_len <= start {
            0
        } else {
            let implied: usize = (self.file_len - start) / ROW_SIZE;
            if implied < ROWS_PER_PAGE {
                implied
            } else {
                ROWS_PER_PAGE
            }
        }
    }

    /// How many bytes of the backing file belong to page `p`: what a read
    /// of the page's region can return at most.
    pub fn disk_bytes_for_page(&self, p: usize) -> (n: usize)
        requires
            self.wf(),
            p < MAX_PAGES,
        ensures
            n == min(PAGE_SIZE as int, self.file_len - p * PAGE_SIZE) || (self.file_len <= p
                * PAGE_SIZE && n == 0),
            n >= disk_rows_on_page(self.file_len as int, p as int) * ROW_SIZE,
    {
        let start: usize = p * PAGE_SIZE;
        let n: usize = if self.file_len <= start {
            0
        } else if self.file_len - start >= PAGE_SIZE {
            PAGE_SIZE
        } else {
            self.file_len - start
        };
        proof {
            if start < self.file_len && self.file_len < start + PAGE_SIZE {
                vstd::arithmetic::div_mod::lemma_fundamental_div_mod(
                    self.file_len - start as int,
                    ROW_SIZE as int,
                );
                vstd::arithmetic::div_mod::lemma_mod_bound(
                    self.file_len - start as int,
                    ROW_SIZE as int,
                );
            }
        }
        n
    }

    /// Resolves page `p` to a resident slot.  Fails exactly when `p` is
    /// past the slot array.  A page the file does not cover is materialized
    /// empty; a page already resident is left as it is.  A page that lives
    /// on disk but is not yet resident must be installed first.
    pub fn get_page(&mut self, p: usize) -> (r: Result<(), PagerError>)
        requires
            old(self).wf(),
            p < MAX_PAGES && !old(self).is_resident(p as int) ==> disk_rows_on_page(
                old(self).file_len as int,
                p as int,
            ) == 0,
        ensures
            final(self).wf(),
            final(self).file_len == old(self).file_len,
            forall|q: int|
                0 <= q < MAX_PAGES && q != p ==> final(self).slots@[q] == old(self).slots@[q],
            forall|q: int|
                0 <= q < MAX_PAGES ==> final(self).page_rows(q) == old(self).page_rows(q),
            forall|q: int|
                0 <= q < MAX_PAGES && old(self).is_resident(q) ==> final(self).is_resident(q),
            match r {
                Ok(()) => p < MAX_PAGES && final(self).is_resident(p as int),
                Err(e) => e == PagerError::PageNumberOutOfBounds && p >= MAX_PAGES
                    && *final(self) == *old(self),
            },
    {
        if p >= MAX_PAGES {
            return Err(PagerError::PageNumberOutOfBounds);
        }
        let resident: bool = match &self.slots[p] {
            PageSlot::Resident(_) => true,
            PageSlot::Unloaded => false,
        };
        if !resident {
            let fresh = Page::new();
            let slot = vstd::std_specs::vec::vec_index_mut(&mut self.slots, p);
            *slot = PageSlot::Resident(fresh);
            proof {
                assert forall|q: int|
                    0 <= q < MAX_PAGES implies self.page_rows(q) == old(self).page_rows(q) by {
                    if q == p {
                        assert(self.page_rows(q) =~= old(self).page_rows(q));
                    }
                }
            }
        }
        Ok(())
    }

    /// Appends one row to the resident, non-full page `p`; the capacity
    /// decision has already been taken by the table.
    pub fn append_row(&mut self, p: usize, row: Row)
        requires
            old(self).wf(),
            p < MAX_PAGES,
            old(self).is_resident(p as int),
            valid_row(row@),
            old(self).page_rows(p as int).len() < ROWS_PER_PAGE,
        ensures
            final(self).wf(),
            final(self).file_len == old(self).file_len,
            final(self).is_resident(p as int),
            final(self).page_rows(p as int) == old(self).page_rows(p as int).push(row@),
            forall|q: int|
                0 <= q < MAX_PAGES && q != p ==> final(self).slots@[q] == old(self).slots@[q],
            forall|q: int|
                0 <= q < MAX_PAGES && old(self).is_resident(q) ==> final(self).is_resident(q),
    {
        let slot = vstd::std_specs::vec::vec_index_mut(&mut self.slots, p);
        match slot {
            PageSlot::Resident(pg) => {
                let res = pg.append(row);
                proof {
                    assert(res is Ok);
                }
            },
            PageSlot::Unloaded => {
                proof {
                    assert(false);
                }
            },
        }
    }

    /// Installs page `p` from the bytes it occupies on disk.  Fails exactly
    /// when some row block of the page is corrupt, and then changes
    /// nothing: no partial state is retained in the slot.
    pub fn install_page(&mut self, p: usize, bytes: &[u8]) -> (r: Result<(), PagerError>)
        requires
            old(self).wf(),
            p < MAX_PAGES,
            !old(self).is_resident(p as int),
            disk_rows_on_page(old(self).file_len as int, p as int) * ROW_SIZE <= bytes@.len(),
        ensures
            final(self).wf(),
            final(self).file_len == old(self).file_len,
            forall|q: int|
                0 <= q < MAX_PAGES && q != p ==> final(self).slots@[q] == old(self).slots@[q],
            match r {
                Ok(()) => {
                    &&& final(self).is_resident(p as int)
                    &&& final(self).page_rows(p as int) == spec_decode_rows(
                        bytes@,
                        disk_rows_on_page(old(self).file_len as int, p as int),
                    )
                    &&& final(self).page_rows(p as int).len() == disk_rows_on_page(
                        old(self).file_len as int,
                        p as int,
                    )
                },
                Err(e) => {
                    &&& e == PagerError::DecodeError
                    &&& *final(self) == *old(self)
                    &&& exists|i: int|
                        0 <= i < disk_rows_on_page(old(self).file_len as int, p as int)
                            && !clean_row_block(#[trigger] row_block(bytes@, i))
                },
            },
    {
        let nrows = self.disk_rows_for_page(p);
        match Page::from_bytes(bytes, nrows) {
            Some(page) => {
                let slot = vstd::std_specs::vec::vec_index_mut(&mut self.slots, p);
                *slot = PageSlot::Resident(page);
                Ok(())
            },
            None => Err(PagerError::DecodeError),
        }
    }

    /// The bytes resident page `p` must be written back as, at file offset
    /// `p * PAGE_SIZE`; nothing for a slot with no rows in memory, which
    /// needs no write.
    pub fn flush_page(&self, p: usize) -> (r: Option<Vec<u8>>)
        requires
            self.wf(),
            p < MAX_PAGES,
        ensures
            match r {
                Some(b) => {
                    &&& self.is_resident(p as int)
                    &&& self.page_rows(p as int).len() > 0
                    &&& b@ == spec_page_image(self.page_rows(p as int))
                },
                None => !self.is_resident(p as int) || self.page_rows(p as int).len() == 0,
            },
    {
        match &self.slots[p] {
            PageSlot::Resident(pg) => {
                if pg.num_rows() > 0 {
                    Some(pg.image())
                } else {
                    None
                }
            },
            PageSlot::Unloaded => None,
        }
    }
}

} // verus!
