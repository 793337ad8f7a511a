//! The table: one pager, one fixed-schema table, insert and point lookup.
//!
//! The table packs its rows in page order: every page before the tail is
//! full, the tail may be partial, every page after it is empty.  `insert`
//! appends to the tail page, advancing to a fresh page when the tail fills,
//! and rejects a row only when it does not fit its slots (`RowTooLong`) or
//! when all `MAX_TOTAL_ROWS` places are taken (`TableFull`).  `select` is a
//! linear scan in storage order and returns the first row with the asked-for
//! id; ids are not checked for uniqueness, so duplicates are allowed and the
//! first match wins.
//!
//! Pages are loaded lazily.  The caller owns the file: before an operation
//! that needs a page still on disk, it asks (`next_page_to_load`,
//! `page_to_load_for_insert`), reads the page's bytes at `page_offset`, and
//! hands them to `load_page`; at shutdown it writes back what `flush_page`
//! returns and the file ends `flushed_file_len` bytes long.

use vstd::prelude::*;
use vstd::math::min;
use vstd::arithmetic::div_mod::lemma_div_is_ordered;
use vstd::arithmetic::div_mod::lemma_div_pos_is_pos;
use vstd::arithmetic::div_mod::lemma_fundamental_div_mod;
use vstd::arithmetic::div_mod::lemma_fundamental_div_mod_converse_div;
use vstd::arithmetic::div_mod::lemma_fundamental_div_mod_converse_mod;
use vstd::arithmetic::div_mod::lemma_mod_bound;
use crate::codec::clean_row_block;
use crate::page::row_block;
use crate::page::spec_decode_rows;
use crate::page::spec_page_image;
use crate::page::lemma_page_round_trip;
use crate::pager::PageSlot;
use crate::pager::Pager;
use crate::pager::PagerError;
use crate::pager::disk_num_rows;
use crate::pager::disk_rows_on_page;
use crate::pager::rows_on_page;
use crate::pager::lemma_disk_counts_are_packed;
use crate::row::MAX_PAGES;
use crate::row::MAX_TOTAL_ROWS;
use crate::row::PAGE_SIZE;
use crate::row::ROWS_PER_PAGE;
use crate::row::ROW_SIZE;
use crate::row::Row;
use crate::row::RowModel;
use crate::row::clone_row;
use crate::row::row_fits;
use crate::row::valid_row;

verus! {

/// Why an insert was rejected; a rejected insert leaves the table unchanged.
#[derive(Debug, PartialEq, Eq)]
pub enum InsertError {
    TableFull,
    RowTooLong,
}

/// The first row of `rows`, in order, whose id is `id`.
pub open spec fn spec_find(rows: Seq<RowModel>, id: int) -> Option<RowModel>
    decreases rows.len(),
{
    if rows.len() == 0 {
        None
    } else if rows[0].id == id {
        Some(rows[0])
    } else {
        spec_find(rows.drop_first(), id)
    }
}

/// Finding in a concatenation: the left part wins if it has a match.
pub proof fn lemma_find_append(a: Seq<RowModel>, b: Seq<RowModel>, id: int)
    ensures
        spec_find(a + b, id) == if spec_find(a, id) is Some {
            spec_find(a, id)
        } else {
            spec_find(b, id)
        },
    decreases a.len(),
{
    if a.len() == 0 {
        assert(a + b =~= b);
    } else {
        assert((a + b)[0] == a[0]);
        assert((a + b).drop_first() =~= a.drop_first() + b);
        lemma_find_append(a.drop_first(), b, id);
    }
}

/// There is no match exactly when no row carries the id.
pub proof fn lemma_find_none_iff(rows: Seq<RowModel>, id: int)
    ensures
        (spec_find(rows, id) is None) <==> (forall|i: int|
            0 <= i < rows.len() ==> (#[trigger] rows[i]).id != id),
    decreases rows.len(),
{
    if rows.len() > 0 {
        lemma_find_none_iff(rows.drop_first(), id);
        if spec_find(rows, id) is None {
            assert(rows[0].id != id);
            assert forall|i: int| 0 <= i < rows.len() implies (#[trigger] rows[i]).id != id by {
                if i > 0 {
                    assert(rows.drop_first()[i - 1] == rows[i]);
                }
            }
        } else {
            if rows[0].id == id {
            } else {
                assert(spec_find(rows.drop_first(), id) is Some);
                let j: int = choose|j: int|
                    0 <= j < rows.drop_first().len() && (#[trigger] rows.drop_first()[j]).id
                        == id;
                assert(rows[j + 1].id == id);
            }
        }
    }
}

/// The first match wins: if row `i` carries the id and no earlier row
/// does, the find returns row `i`.
pub proof fn lemma_find_first(rows: Seq<RowModel>, id: int, i: int)
    requires
        0 <= i < rows.len(),
        rows[i].id == id,
        forall|j: int| 0 <= j < i ==> (#[trigger] rows[j]).id != id,
    ensures
        spec_find(rows, id) == Some(rows[i]),
    decreases i,
{
    if i > 0 {
        assert(forall|j: int| 0 <= j < i - 1 ==> rows.drop_first()[j] == rows[j + 1]);
        lemma_find_first(rows.drop_first(), id, i - 1);
    }
}

/// Lookup law under unique ids: when no two rows share an id, looking up
/// the id of any stored row returns exactly that row.
pub proof fn lemma_find_unique_ids(rows: Seq<RowModel>, i: int)
    requires
        0 <= i < rows.len(),
        forall|a: int, b: int|
            0 <= a < b < rows.len() ==> (#[trigger] rows[a]).id != (#[trigger] rows[b]).id,
    ensures
        spec_find(rows, rows[i].id) == Some(rows[i]),
{
    lemma_find_first(rows, rows[i].id, i);
}

/// The page an insert into a table of `nrows` rows goes to.
pub open spec fn tail_page(nrows: int) -> int {
    nrows / (ROWS_PER_PAGE as int)
}

/// The file length after a flush: full pages at `PAGE_SIZE` strides, then
/// the partial tail without padding.
pub open spec fn spec_flushed_len(nrows: int) -> int {
    (nrows / (ROWS_PER_PAGE as int)) * PAGE_SIZE + (nrows % (ROWS_PER_PAGE as int)) * ROW_SIZE
}

/// The table: one pager and the total row count, from which the packed
/// per-page counts follow.
pub struct Table {
    pub pager: Pager,
    pub num_rows: usize,
}

impl Table {
    /// Well-formedness: the pager is well formed, the count is within
    /// capacity, every resident page holds exactly its packed share of the
    /// rows, and a page never loaded still has on disk exactly the rows the
    /// packing gives it.
    pub open spec fn wf(self) -> bool {
        &&& self.pager.wf()
        &&& self.num_rows <= MAX_TOTAL_ROWS
        &&& forall|p: int|
            0 <= p < MAX_PAGES && #[trigger] self.pager.is_resident(p)
                ==> self.pager.page_rows(p).len() == rows_on_page(self.num_rows as int, p)
        &&& forall|p: int|
            0 <= p < MAX_PAGES && !(#[trigger] self.pager.is_resident(p)) ==> rows_on_page(
                self.num_rows as int,
                p,
            ) == disk_rows_on_page(self.pager.file_len as int, p)
    }

    /// The rows of pages `0 .. p`, in page order.
    pub open spec fn rows_up_to(self, p: int) -> Seq<RowModel>
        decreases p,
    {
        if p <= 0 {
            Seq::empty()
        } else {
            self.rows_up_to(p - 1) + self.pager.page_rows(p - 1)
        }
    }

    /// Every row the table holds in memory, in storage order: page order,
    /// insertion order within a page.
    pub open spec fn table_rows(self) -> Seq<RowModel> {
        self.rows_up_to(MAX_PAGES as int)
    }

    /// Every page that holds rows is resident; then `table_rows` is the
    /// whole table and a scan sees everything.
    pub open spec fn fully_loaded(self) -> bool {
        forall|p: int|
            0 <= p < MAX_PAGES && rows_on_page(self.num_rows as int, p) > 0
                ==> #[trigger] self.pager.is_resident(p)
    }

    /// The tail page is resident whenever it already holds rows; what an
    /// insert needs of the cache.
    pub open spec fn insert_ready(self) -> bool {
        self.num_rows < MAX_TOTAL_ROWS ==> (rows_on_page(
            self.num_rows as int,
            tail_page(self.num_rows as int),
        ) > 0 ==> self.pager.is_resident(tail_page(self.num_rows as int)))
    }
}

/// Two tables whose pagers agree on the first `p` pages agree on their
/// concatenation.
proof fn lemma_rows_up_to_agree(t1: Table, t2: Table, p: int)
    requires
        0 <= p <= MAX_PAGES,
        forall|q: int| 0 <= q < p ==> #[trigger] t1.pager.page_rows(q) == t2.pager.page_rows(q),
    ensures
        t1.rows_up_to(p) == t2.rows_up_to(p),
    decreases p,
{
    if p > 0 {
        lemma_rows_up_to_agree(t1, t2, p - 1);
    }
}

/// A table whose first `p` pages are all empty has an empty concatenation.
proof fn lemma_rows_up_to_empty(t: Table, p: int)
    requires
        0 <= p <= MAX_PAGES,
        forall|q: int| 0 <= q < p ==> #[trigger] t.pager.page_rows(q).len() == 0,
    ensures
        t.rows_up_to(p) == Seq::<RowModel>::empty(),
    decreases p,
{
    if p > 0 {
        lemma_rows_up_to_empty(t, p - 1);
        assert(t.rows_up_to(p) =~= Seq::<RowModel>::empty());
    }
}

/// In a fully loaded, well-formed table the first `p` pages hold the first
/// `min(num_rows, p * ROWS_PER_PAGE)` rows.
proof fn lemma_rows_up_to_len(t: Table, p: int)
    requires
        t.wf(),
        t.fully_loaded(),
        0 <= p <= MAX_PAGES,
    ensures
        t.rows_up_to(p).len() == min(t.num_rows as int, p * ROWS_PER_PAGE),
    decreases p,
{
    if p > 0 {
        lemma_rows_up_to_len(t, p - 1);
        if t.pager.is_resident(p - 1) {
            assert(t.pager.page_rows(p - 1).len() == rows_on_page(t.num_rows as int, p - 1));
        } else {
            assert(rows_on_page(t.num_rows as int, p - 1) == 0);
            assert(t.pager.page_rows(p - 1).len() == 0);
        }
    }
}

/// `rows_up_to(p)` is a prefix of `rows_up_to(q)` for `p <= q`.
proof fn lemma_rows_up_to_prefix(t: Table, p: int, q: int)
    requires
        0 <= p <= q <= MAX_PAGES,
    ensures
        t.rows_up_to(p).len() <= t.rows_up_to(q).len(),
        forall|i: int|
            0 <= i < t.rows_up_to(p).len() ==> #[trigger] t.rows_up_to(q)[i] == t.rows_up_to(
                p,
            )[i],
    decreases q,
{
    if q > p {
        lemma_rows_up_to_prefix(t, p, q - 1);
    }
}

/// Pushing a row onto page `tp` pushes it onto the concatenation, provided
/// every page after `tp` is empty.
proof fn lemma_rows_up_to_push(t1: Table, t2: Table, tp: int, x: RowModel, p: int)
    requires
        0 <= tp < p <= MAX_PAGES,
        forall|q: int|
            0 <= q < MAX_PAGES && q != tp ==> #[trigger] t2.pager.page_rows(q)
                == t1.pager.page_rows(q),
        t2.pager.page_rows(tp) == t1.pager.page_rows(tp).push(x),
        forall|q: int| tp < q < MAX_PAGES ==> #[trigger] t1.pager.page_rows(q).len() == 0,
    ensures
        t2.rows_up_to(p) == t1.rows_up_to(p).push(x),
    decreases p,
{
    if p == tp + 1 {
        lemma_rows_up_to_agree(t1, t2, tp);
        assert(t2.rows_up_to(p) =~= t1.rows_up_to(p).push(x));
    } else {
        lemma_rows_up_to_push(t1, t2, tp, x, p - 1);
        assert(t2.rows_up_to(p) =~= t1.rows_up_to(p).push(x));
    }
}

/// Once the first `p` pages hold a match, later pages cannot change it.
proof fn lemma_find_extend(t: Table, p: int, q: int, id: int)
    requires
        0 <= p <= q <= MAX_PAGES,
        spec_find(t.rows_up_to(p), id) is Some,
    ensures
        spec_find(t.rows_up_to(q), id) == spec_find(t.rows_up_to(p), id),
    decreases q,
{
    if q > p {
        lemma_find_extend(t, p, q - 1, id);
        lemma_find_append(t.rows_up_to(q - 1), t.pager.page_rows(q - 1), id);
    }
}

/// Packing law: in a fully loaded table, row `i` of the table lives on page
/// `i / ROWS_PER_PAGE` at index `i % ROWS_PER_PAGE` within that page.
pub proof fn lemma_row_location(t: Table, i: int)
    requires
        t.wf(),
        t.fully_loaded(),
        0 <= i < t.num_rows,
    ensures
        t.table_rows().len() == t.num_rows,
        t.table_rows()[i] == t.pager.page_rows(i / (ROWS_PER_PAGE as int))[i % (
        ROWS_PER_PAGE as int)],
{
    let rp: int = ROWS_PER_PAGE as int;
    let p: int = i / rp;
    lemma_fundamental_div_mod(i, rp);
    lemma_mod_bound(i, rp);
    lemma_div_pos_is_pos(i, rp);
    lemma_div_is_ordered(i, MAX_TOTAL_ROWS - 1, rp);
    assert(p < MAX_PAGES);
    lemma_rows_up_to_len(t, MAX_PAGES as int);
    lemma_rows_up_to_len(t, p);
    lemma_rows_up_to_len(t, p + 1);
    lemma_rows_up_to_prefix(t, p + 1, MAX_PAGES as int);
    assert(t.rows_up_to(p).len() == p * rp);
    assert(t.table_rows()[i] == t.rows_up_to(p + 1)[i]);
    assert(t.rows_up_to(p + 1)[i] == t.pager.page_rows(p)[i - p * rp]);
}

/// Reopen law for the layout: a file of the flushed length implies exactly
/// the row counts, total and per page, that the flushed table had.
pub proof fn lemma_flush_reopen_counts(nrows: int)
    requires
        0 <= nrows <= MAX_TOTAL_ROWS,
    ensures
        0 <= spec_flushed_len(nrows) <= MAX_PAGES * PAGE_SIZE,
        disk_num_rows(spec_flushed_len(nrows)) == nrows,
        forall|p: int|
            0 <= p < MAX_PAGES ==> #[trigger] disk_rows_on_page(spec_flushed_len(nrows), p)
                == rows_on_page(nrows, p),
{
    let rp: int = ROWS_PER_PAGE as int;
    let k: int = nrows / rp;
    let rem: int = nrows % rp;
    lemma_fundamental_div_mod(nrows, rp);
    lemma_mod_bound(nrows, rp);
    lemma_div_pos_is_pos(nrows, rp);
    lemma_div_is_ordered(nrows, MAX_TOTAL_ROWS as int, rp);
    let len: int = spec_flushed_len(nrows);
    assert(len == k * PAGE_SIZE + rem * ROW_SIZE);
    assert(0 <= rem * ROW_SIZE < PAGE_SIZE);
    lemma_fundamental_div_mod_converse_div(len, PAGE_SIZE as int, k, rem * ROW_SIZE);
    lemma_fundamental_div_mod_converse_mod(len, PAGE_SIZE as int, k, rem * ROW_SIZE);
    lemma_fundamental_div_mod_converse_div(rem * ROW_SIZE, ROW_SIZE as int, rem, 0);
    assert(disk_num_rows(len) == nrows);
    assert forall|p: int| 0 <= p < MAX_PAGES implies #[trigger] disk_rows_on_page(len, p)
        == rows_on_page(nrows, p) by {
        if p < k {
            assert(len >= p * PAGE_SIZE + PAGE_SIZE);
            assert(nrows >= p * rp + rp);
        } else if p == k {
            assert(len - p * PAGE_SIZE == rem * ROW_SIZE);
        } else {
            assert(len <= p * PAGE_SIZE);
            assert(nrows <= p * rp);
        }
    }
}

/// Persistence law for one page: the bytes `flush_page` emits for a
/// resident page, read back under the row count the flushed file length
/// implies, decode to exactly the rows the page held.
pub proof fn lemma_persistence_round_trip(t: Table, p: int)
    requires
        t.wf(),
        0 <= p < MAX_PAGES,
        t.pager.is_resident(p),
    ensures
        disk_rows_on_page(spec_flushed_len(t.num_rows as int), p) == t.pager.page_rows(p).len(),
        spec_decode_rows(
            spec_page_image(t.pager.page_rows(p)),
            t.pager.page_rows(p).len() as int,
        ) == t.pager.page_rows(p),
        t.pager.page_rows(p).len() * ROW_SIZE <= spec_page_image(t.pager.page_rows(p)).len(),
{
    lemma_flush_reopen_counts(t.num_rows as int);
    lemma_page_round_trip(t.pager.page_rows(p));
}

impl Table {
    /// Opens a table over a file of `file_len` bytes: records the implied
    /// row count and loads nothing yet.
    pub fn open(file_len: usize) -> (t: Table)
        requires
            file_len <= MAX_PAGES * PAGE_SIZE,
        ensures
            t.wf(),
            t.pager.file_len == file_len,
            t.num_rows == disk_num_rows(file_len as int),
            forall|p: int| 0 <= p < MAX_PAGES ==> !t.pager.is_resident(p),
            t.table_rows() == Seq::<RowModel>::empty(),
            file_len == 0 ==> t.fully_loaded(),
    {
        let pager = Pager::new(file_len);
        proof {
            lemma_mod_bound(file_len as int, PAGE_SIZE as int);
        }
        let full: usize = file_len / PAGE_SIZE;
        let rem: usize = file_len % PAGE_SIZE;
        let mut tail: usize = rem / ROW_SIZE;
        if tail > ROWS_PER_PAGE {
            tail = ROWS_PER_PAGE;
        }
        proof {
            lemma_div_pos_is_pos(file_len as int, PAGE_SIZE as int);
            lemma_div_is_ordered(file_len as int, MAX_PAGES * PAGE_SIZE, PAGE_SIZE as int);
            lemma_disk_counts_are_packed(file_len as int);
        }
        let num_rows: usize = full * ROWS_PER_PAGE + tail;
        let t = Table { pager, num_rows };
        proof {
            assert forall|q: int| 0 <= q < MAX_PAGES implies #[trigger] t.pager.page_rows(
                q,
            ).len() == 0 by {
                assert(!t.pager.is_resident(q));
                assert(t.pager.page_rows(q) =~= Seq::<RowModel>::empty());
            }
            lemma_rows_up_to_empty(t, MAX_PAGES as int);
        }
        t
    }

    /// Inserts a row at the tail.  Succeeds exactly when the row is
    /// storable and the table is below capacity; a rejected insert leaves
    /// the table unchanged.
    pub fn insert(&mut self, row: Row) -> (r: Result<(), InsertError>)
        requires
            old(self).wf(),
            old(self).insert_ready(),
        ensures
            final(self).wf(),
            final(self).insert_ready(),
            final(self).pager.file_len == old(self).pager.file_len,
            old(self).fully_loaded() ==> final(self).fully_loaded(),
            match r {
                Ok(()) => {
                    &&& valid_row(row@)
                    &&& old(self).num_rows < MAX_TOTAL_ROWS
                    &&& final(self).num_rows == old(self).num_rows + 1
                    &&& final(self).table_rows() == old(self).table_rows().push(row@)
                },
                Err(InsertError::RowTooLong) => !valid_row(row@) && *final(self) == *old(self),
                Err(InsertError::TableFull) => valid_row(row@) && old(self).num_rows
                    == MAX_TOTAL_ROWS && *final(self) == *old(self),
            },
    {
        if !row_fits(&row) {
            return Err(InsertError::RowTooLong);
        }
        if self.num_rows >= MAX_TOTAL_ROWS {
            return Err(InsertError::TableFull);
        }
        let ghost n: int = self.num_rows as int;
        let ghost rp: int = ROWS_PER_PAGE as int;
        let p: usize = self.num_rows / ROWS_PER_PAGE;
        proof {
            lemma_fundamental_div_mod(n, rp);
            lemma_mod_bound(n, rp);
            lemma_div_pos_is_pos(n, rp);
            lemma_div_is_ordered(n, MAX_TOTAL_ROWS - 1, rp);
            assert(p < MAX_PAGES);
            assert(rows_on_page(n, p as int) == n - p * rp);
        }
        let res = self.pager.get_page(p);
        proof {
            assert(res is Ok);
        }
        proof {
            if old(self).pager.is_resident(p as int) {
                assert(old(self).pager.page_rows(p as int).len() == rows_on_page(n, p as int));
            } else {
                assert(rows_on_page(n, p as int) == disk_rows_on_page(
                    old(self).pager.file_len as int,
                    p as int,
                ));
                assert(old(self).pager.page_rows(p as int) =~= Seq::<RowModel>::empty());
            }
            assert(self.pager.page_rows(p as int) == old(self).pager.page_rows(p as int));
            assert(self.pager.page_rows(p as int).len() == rows_on_page(n, p as int));
            assert(self.pager.page_rows(p as int).len() < ROWS_PER_PAGE);
        }
        self.pager.append_row(p, row);
        self.num_rows = self.num_rows + 1;
        proof {
            assert forall|q: int|
                0 <= q < MAX_PAGES && q != p implies rows_on_page(n + 1, q) == rows_on_page(
                n,
                q,
            ) by {}
            assert forall|q: int|
                (p as int) < q < MAX_PAGES implies #[trigger] old(self).pager.page_rows(q).len()
                == 0 by {
                assert(rows_on_page(n, q) == 0);
                if old(self).pager.is_resident(q) {
                    assert(old(self).pager.page_rows(q).len() == rows_on_page(n, q));
                } else {
                    assert(old(self).pager.page_rows(q) =~= Seq::<RowModel>::empty());
                }
            }
            lemma_rows_up_to_push(*old(self), *self, p as int, row@, MAX_PAGES as int);
            assert forall|q: int|
                0 <= q < MAX_PAGES && #[trigger] self.pager.is_resident(
                    q,
                ) implies self.pager.page_rows(q).len() == rows_on_page(n + 1, q) by {
                if q != p as int {
                    assert(self.pager.slots@[q] == old(self).pager.slots@[q]);
                    assert(old(self).pager.is_resident(q));
                    assert(old(self).pager.page_rows(q).len() == rows_on_page(n, q));
                    assert(rows_on_page(n + 1, q) == rows_on_page(n, q));
                }
            }
            assert forall|q: int|
                0 <= q < MAX_PAGES && !(#[trigger] self.pager.is_resident(
                    q,
                )) implies rows_on_page(n + 1, q) == disk_rows_on_page(
                self.pager.file_len as int,
                q,
            ) by {
                assert(self.pager.slots@[q] == old(self).pager.slots@[q]);
                assert(!old(self).pager.is_resident(q));
                assert(rows_on_page(n, q) == disk_rows_on_page(
                    old(self).pager.file_len as int,
                    q,
                ));
                assert(rows_on_page(n + 1, q) == rows_on_page(n, q));
            }
            if old(self).fully_loaded() {
                assert forall|q: int|
                    0 <= q < MAX_PAGES && rows_on_page(self.num_rows as int, q)
                        > 0 implies #[trigger] self.pager.is_resident(q) by {
                    if q != p as int {
                        assert(rows_on_page(n, q) == rows_on_page(n + 1, q));
                        assert(old(self).pager.is_resident(q));
                        assert(self.pager.slots@[q] == old(self).pager.slots@[q]);
                    }
                }
            }
            let n1: int = n + 1;
            lemma_fundamental_div_mod(n1, rp);
            lemma_mod_bound(n1, rp);
            lemma_div_pos_is_pos(n1, rp);
            if n % rp == rp - 1 {
                lemma_fundamental_div_mod_converse_div(n1, rp, (p + 1) as int, 0);
                assert(tail_page(n1) == p + 1);
                assert(rows_on_page(n1, p + 1) == 0);
            } else {
                lemma_fundamental_div_mod_converse_div(n1, rp, p as int, (n % rp) + 1);
                assert(tail_page(n1) == p as int);
                assert(self.pager.is_resident(p as int));
            }
        }
        Ok(())
    }

    /// Looks the id up by a full scan in storage order; returns the first
    /// row that carries it, or nothing when no row does.
    pub fn select(&self, id: i32) -> (r: Option<Row>)
        requires
            self.wf(),
            self.fully_loaded(),
        ensures
            match r {
                Some(row) => spec_find(self.table_rows(), id as int) == Some(row@) && valid_row(
                    row@,
                ),
                None => spec_find(self.table_rows(), id as int) is None,
            },
    {
        let mut p: usize = 0;
        while p < MAX_PAGES
            invariant
                0 <= p <= MAX_PAGES,
                self.wf(),
                self.fully_loaded(),
                spec_find(self.rows_up_to(p as int), id as int) is None,
            decreases MAX_PAGES - p,
        {
            match &self.pager.slots[p] {
                PageSlot::Resident(pg) => {
                    let m = pg.num_rows();
                    let mut i: usize = 0;
                    while i < m
                        invariant
                            0 <= i <= m,
                            p < MAX_PAGES,
                            m == pg@.len(),
                            pg@ == self.pager.page_rows(p as int),
                            self.wf(),
                            self.fully_loaded(),
                            self.pager.is_resident(p as int),
                            spec_find(self.rows_up_to(p as int), id as int) is None,
                            spec_find(pg@.take(i as int), id as int) is None,
                        decreases m - i,
                    {
                        match pg.get(i) {
                            Some(row) => {
                                if row.id == id {
                                    proof {
                                        lemma_find_none_iff(pg@.take(i as int), id as int);
                                        assert(forall|j: int|
                                            0 <= j < i ==> pg@.take(i as int)[j] == pg@[j]);
                                        lemma_find_first(pg@, id as int, i as int);
                                        lemma_find_append(
                                            self.rows_up_to(p as int),
                                            pg@,
                                            id as int,
                                        );
                                        assert(self.rows_up_to(p + 1 as int) =~= self.rows_up_to(
                                            p as int,
                                        ) + pg@);
                                        lemma_find_extend(
                                            *self,
                                            p + 1 as int,
                                            MAX_PAGES as int,
                                            id as int,
                                        );
                                    }
                                    return Some(clone_row(row));
                                }
                                proof {
                                    lemma_find_append(
                                        pg@.take(i as int),
                                        seq![pg@[i as int]],
                                        id as int,
                                    );
                                    assert(seq![pg@[i as int]].drop_first()
                                        =~= Seq::<RowModel>::empty());
                                    assert(seq![pg@[i as int]].drop_first().len() == 0);
                                    assert(spec_find(
                                        seq![pg@[i as int]].drop_first(),
                                        id as int,
                                    ) is None);
                                    assert(seq![pg@[i as int]][0] == pg@[i as int]);
                                    assert(pg@[i as int].id != id as int);
                                    assert(spec_find(seq![pg@[i as int]], id as int) is None);
                                    assert(pg@.take(i as int) + seq![pg@[i as int]] =~= pg@.take(
                                        i + 1 as int,
                                    ));
                                    assert(spec_find(pg@.take(i + 1 as int), id as int) is None);
                                }
                            },
                            None => {
                                proof {
                                    assert(false);
                                }
                            },
                        }
                        i = i + 1;
                    }
                    proof {
                        assert(pg@.take(m as int) =~= pg@);
                        lemma_find_append(self.rows_up_to(p as int), pg@, id as int);
                        assert(self.rows_up_to(p + 1 as int) =~= self.rows_up_to(p as int) + pg@);
                    }
                },
                PageSlot::Unloaded => {
                    proof {
                        assert(self.pager.page_rows(p as int) =~= Seq::<RowModel>::empty());
                        lemma_find_append(
                            self.rows_up_to(p as int),
                            self.pager.page_rows(p as int),
                            id as int,
                        );
                        assert(self.rows_up_to(p + 1 as int) =~= self.rows_up_to(p as int)
                            + self.pager.page_rows(p as int));
                    }
                },
            }
            p = p + 1;
        }
        None
    }

    /// The lowest-numbered page that holds rows but is not yet resident, or
    /// nothing when the table is fully loaded.
    pub fn next_page_to_load(&self) -> (r: Option<usize>)
        requires
            self.wf(),
        ensures
            match r {
                Some(p) => {
                    &&& p < MAX_PAGES
                    &&& !self.pager.is_resident(p as int)
                    &&& rows_on_page(self.num_rows as int, p as int) > 0
                    &&& disk_rows_on_page(self.pager.file_len as int, p as int) > 0
                },
                None => self.fully_loaded(),
            },
    {
        let mut p: usize = 0;
        while p < MAX_PAGES
            invariant
                0 <= p <= MAX_PAGES,
                self.wf(),
                forall|q: int|
                    0 <= q < p && rows_on_page(self.num_rows as int, q) > 0
                        ==> #[trigger] self.pager.is_resident(q),
            decreases MAX_PAGES - p,
        {
            let needed: bool = self.num_rows > p * ROWS_PER_PAGE;
            let resident: bool = match &self.pager.slots[p] {
                PageSlot::Resident(_) => true,
                PageSlot::Unloaded => false,
            };
            if needed && !resident {
                proof {
                    assert(!self.pager.is_resident(p as int));
                    assert(rows_on_page(self.num_rows as int, p as int) > 0);
                    assert(rows_on_page(self.num_rows as int, p as int) == disk_rows_on_page(
                        self.pager.file_len as int,
                        p as int,
                    ));
                }
                return Some(p);
            }
            proof {
                assert(rows_on_page(self.num_rows as int, p as int) > 0 ==> needed);
            }
            p = p + 1;
        }
        None
    }

    /// The page an insert would need loaded first, or nothing when the
    /// table is ready for an insert.
    pub fn page_to_load_for_insert(&self) -> (r: Option<usize>)
        requires
            self.wf(),
        ensures
            match r {
                Some(p) => {
                    &&& p < MAX_PAGES
                    &&& !self.pager.is_resident(p as int)
                    &&& disk_rows_on_page(self.pager.file_len as int, p as int) > 0
                },
                None => self.insert_ready(),
            },
    {
        if self.num_rows >= MAX_TOTAL_ROWS {
            return None;
        }
        let p: usize = self.num_rows / ROWS_PER_PAGE;
        proof {
            lemma_fundamental_div_mod(self.num_rows as int, ROWS_PER_PAGE as int);
            lemma_mod_bound(self.num_rows as int, ROWS_PER_PAGE as int);
            lemma_div_pos_is_pos(self.num_rows as int, ROWS_PER_PAGE as int);
            lemma_div_is_ordered(self.num_rows as int, MAX_TOTAL_ROWS - 1, ROWS_PER_PAGE as int);
            assert(p < MAX_PAGES);
        }
        let needed: bool = self.num_rows > p * ROWS_PER_PAGE;
        let resident: bool = match &self.pager.slots[p] {
            PageSlot::Resident(_) => true,
            PageSlot::Unloaded => false,
        };
        if needed && !resident {
            proof {
                assert(!self.pager.is_resident(p as int));
                assert(rows_on_page(self.num_rows as int, p as int) > 0);
                assert(rows_on_page(self.num_rows as int, p as int) == disk_rows_on_page(
                    self.pager.file_len as int,
                    p as int,
                ));
            }
            Some(p)
        } else {
            proof {
                assert(rows_on_page(self.num_rows as int, p as int) > 0 ==> needed);
            }
            None
        }
    }

    /// Installs page `p` from the bytes it occupies on disk; see the pager.
    pub fn load_page(&mut self, p: usize, bytes: &[u8]) -> (r: Result<(), PagerError>)
        requires
            old(self).wf(),
            p < MAX_PAGES,
            !old(self).pager.is_resident(p as int),
            disk_rows_on_page(old(self).pager.file_len as int, p as int) * ROW_SIZE
                <= bytes@.len(),
        ensures
            final(self).wf(),
            final(self).num_rows == old(self).num_rows,
            final(self).pager.file_len == old(self).pager.file_len,
            forall|q: int|
                0 <= q < MAX_PAGES && q != p ==> final(self).pager.slots@[q] == old(
                    self,
                ).pager.slots@[q],
            match r {
                Ok(()) => {
                    &&& final(self).pager.is_resident(p as int)
                    &&& final(self).pager.page_rows(p as int) == spec_decode_rows(
                        bytes@,
                        disk_rows_on_page(old(self).pager.file_len as int, p as int),
                    )
                },
                Err(e) => {
                    &&& e == PagerError::DecodeError
                    &&& *final(self) == *old(self)
                    &&& exists|i: int|
                        0 <= i < disk_rows_on_page(old(self).pager.file_len as int, p as int)
                            && !clean_row_block(#[trigger] row_block(bytes@, i))
                },
            },
    {
        let ghost n: int = old(self).num_rows as int;
        proof {
            assert(rows_on_page(n, p as int) == disk_rows_on_page(
                old(self).pager.file_len as int,
                p as int,
            ));
        }
        let r = self.pager.install_page(p, bytes);
        proof {
            if r is Ok {
                assert(self.pager.page_rows(p as int).len() == rows_on_page(n, p as int));
                assert forall|q: int|
                    0 <= q < MAX_PAGES && q != p implies self.pager.page_rows(q) == old(
                    self,
                ).pager.page_rows(q) && (self.pager.is_resident(q) == old(
                    self,
                ).pager.is_resident(q)) by {
                    assert(self.pager.slots@[q] == old(self).pager.slots@[q]);
                }
            }
        }
        r
    }

    /// How many bytes of the backing file belong to page `p`; what the
    /// caller must read before `load_page`.
    pub fn page_disk_bytes(&self, p: usize) -> (n: usize)
        requires
            self.wf(),
            p < MAX_PAGES,
        ensures
            n >= disk_rows_on_page(self.pager.file_len as int, p as int) * ROW_SIZE,
            n == min(PAGE_SIZE as int, self.pager.file_len - p * PAGE_SIZE) || (
            self.pager.file_len <= p * PAGE_SIZE && n == 0),
    {
        self.pager.disk_bytes_for_page(p)
    }

    /// The file offset of page `p`.
    pub fn page_offset(p: usize) -> (off: usize)
        requires
            p < MAX_PAGES,
        ensures
            off == p * PAGE_SIZE,
    {
        p * PAGE_SIZE
    }

    /// The bytes resident page `p` must be written back as, at
    /// `page_offset(p)`; nothing when the slot needs no write.
    pub fn flush_page(&self, p: usize) -> (r: Option<Vec<u8>>)
        requires
            self.wf(),
            p < MAX_PAGES,
        ensures
            match r {
                Some(b) => {
                    &&& self.pager.is_resident(p as int)
                    &&& self.pager.page_rows(p as int).len() > 0
                    &&& b@ == spec_page_image(self.pager.page_rows(p as int))
                },
                None => !self.pager.is_resident(p as int) || self.pager.page_rows(
                    p as int,
                ).len() == 0,
            },
    {
        self.pager.flush_page(p)
    }

    /// The length the backing file has after a full flush.
    pub fn flushed_file_len(&self) -> (len: usize)
        requires
            self.wf(),
        ensures
            len == spec_flushed_len(self.num_rows as int),
            len <= MAX_PAGES * PAGE_SIZE,
    {
        proof {
            lemma_flush_reopen_counts(self.num_rows as int);
            lemma_fundamental_div_mod(self.num_rows as int, ROWS_PER_PAGE as int);
            lemma_mod_bound(self.num_rows as int, ROWS_PER_PAGE as int);
            lemma_div_pos_is_pos(self.num_rows as int, ROWS_PER_PAGE as int);
            lemma_div_is_ordered(self.num_rows as int, MAX_TOTAL_ROWS as int, ROWS_PER_PAGE as int);
        }
        let full: usize = self.num_rows / ROWS_PER_PAGE;
        let rem: usize = self.num_rows % ROWS_PER_PAGE;
        full * PAGE_SIZE + rem * ROW_SIZE
    }
}

} // verus!
