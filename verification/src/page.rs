//! The page: a fixed-capacity, append-only, in-memory block of rows.
//!
//! A page holds at most `ROWS_PER_PAGE` rows.  Its on-disk form is the
//! concatenation of its encoded rows; a full page is zero-padded to
//! `PAGE_SIZE` bytes so that the next page starts at its fixed offset, while
//! the partial tail page is written without padding, which is what lets the
//! file length imply the row count.

use vstd::prelude::*;
use crate::codec::clean_row_block;
use crate::codec::decode_row;
use crate::codec::encode_row;
use crate::codec::lemma_row_round_trip;
use crate::codec::spec_decode_row;
use crate::codec::spec_encode_row;
use crate::codec::zeros;
use crate::row::PAGE_SIZE;
use crate::row::ROWS_PER_PAGE;
use crate::row::ROW_SIZE;
use crate::row::Row;
use crate::row::RowModel;
use crate::row::valid_row;

verus! {

/// The signal a full page answers an append with; the table consumes it to
/// advance to the next page, so it never reaches a caller of the table.
#[derive(Debug, PartialEq, Eq)]
pub struct PageFull;

/// A fixed-capacity block of rows; the unit of disk I/O and caching.
pub struct Page {
    pub rows: Vec<Row>,
}

impl View for Page {
    type V = Seq<RowModel>;

    open spec fn view(&self) -> Seq<RowModel> {
        self.rows@.map_values(|r: Row| r@)
    }
}

/// A page is well formed when it is within capacity and every row on it is
/// storable.
pub open spec fn wf_page(rows: Seq<RowModel>) -> bool {
    &&& rows.len() <= ROWS_PER_PAGE
    &&& forall|i: int| 0 <= i < rows.len() ==> valid_row(#[trigger] rows[i])
}

/// The concatenation of the encoded rows of a page.
pub open spec fn spec_rows_bytes(rows: Seq<RowModel>) -> Seq<u8>
    decreases rows.len(),
{
    if rows.len() == 0 {
        Seq::empty()
    } else {
        spec_rows_bytes(rows.drop_last()) + spec_encode_row(rows.last())
    }
}

/// The bytes a page is written back as: its encoded rows, zero-padded to
/// `PAGE_SIZE` only when the page is full.
pub open spec fn spec_page_image(rows: Seq<RowModel>) -> Seq<u8> {
    if rows.len() == ROWS_PER_PAGE {
        spec_rows_bytes(rows) + zeros(PAGE_SIZE - ROWS_PER_PAGE * ROW_SIZE)
    } else {
        spec_rows_bytes(rows)
    }
}

/// The `i`-th `ROW_SIZE`-byte block of a page's bytes.
pub open spec fn row_block(b: Seq<u8>, i: int) -> Seq<u8> {
    b.subrange(i * ROW_SIZE, (i + 1) * ROW_SIZE)
}

/// The first `n` rows stored in a page's bytes.
pub open spec fn spec_decode_rows(b: Seq<u8>, n: int) -> Seq<RowModel>
    decreases n,
{
    if n <= 0 {
        Seq::empty()
    } else {
        spec_decode_rows(b, n - 1).push(spec_decode_row(row_block(b, n - 1)))
    }
}

/// Encoded rows occupy exactly `ROW_SIZE` bytes each.
pub proof fn lemma_rows_bytes_len(rows: Seq<RowModel>)
    requires
        forall|i: int| 0 <= i < rows.len() ==> valid_row(#[trigger] rows[i]),
    ensures
        spec_rows_bytes(rows).len() == rows.len() * ROW_SIZE,
    decreases rows.len(),
{
    if rows.len() > 0 {
        lemma_rows_bytes_len(rows.drop_last());
        lemma_row_round_trip(rows.last());
    }
}

/// Block `i` of a page's concatenated rows is the encoding of row `i`.
pub proof fn lemma_row_block_of_rows_bytes(rows: Seq<RowModel>, i: int)
    requires
        forall|j: int| 0 <= j < rows.len() ==> valid_row(#[trigger] rows[j]),
        0 <= i < rows.len(),
    ensures
        row_block(spec_rows_bytes(rows), i) == spec_encode_row(rows[i]),
    decreases rows.len(),
{
    lemma_rows_bytes_len(rows.drop_last());
    lemma_row_round_trip(rows.last());
    if i == rows.len() - 1 {
        assert(spec_rows_bytes(rows.drop_last()).len() == i * ROW_SIZE);
        assert(row_block(spec_rows_bytes(rows), i) =~= spec_encode_row(rows[i]));
    } else {
        lemma_row_block_of_rows_bytes(rows.drop_last(), i);
        assert(row_block(spec_rows_bytes(rows), i) =~= row_block(
            spec_rows_bytes(rows.drop_last()),
            i,
        ));
    }
}

/// Block `i` of the page image is the encoding of row `i`: the padding of a
/// full page lies beyond every row block.
pub proof fn lemma_row_block_of_page_image(rows: Seq<RowModel>, i: int)
    requires
        wf_page(rows),
        0 <= i < rows.len(),
    ensures
        row_block(spec_page_image(rows), i) == spec_encode_row(rows[i]),
{
    lemma_row_block_of_rows_bytes(rows, i);
    lemma_rows_bytes_len(rows);
    if rows.len() == ROWS_PER_PAGE {
        assert(row_block(spec_page_image(rows), i) =~= row_block(spec_rows_bytes(rows), i));
    }
}

/// Decoding `n` blocks that each encode the corresponding row of `rows`
/// gives `rows` back.
proof fn lemma_decode_encoded_rows(b: Seq<u8>, rows: Seq<RowModel>)
    requires
        forall|i: int| 0 <= i < rows.len() ==> valid_row(#[trigger] rows[i]),
        forall|i: int| 0 <= i < rows.len() ==> row_block(b, i) == spec_encode_row(
            #[trigger] rows[i],
        ),
    ensures
        spec_decode_rows(b, rows.len() as int) == rows,
    decreases rows.len(),
{
    if rows.len() > 0 {
        lemma_decode_encoded_rows(b, rows.drop_last());
        lemma_row_round_trip(rows.last());
        assert(spec_decode_rows(b, rows.len() as int) =~= rows);
    } else {
        assert(spec_decode_rows(b, 0) =~= rows);
    }
}

/// Round-trip law for a whole page: writing a well-formed page out and
/// reading its row count back yields the same rows, block by block.
pub proof fn lemma_page_round_trip(rows: Seq<RowModel>)
    requires
        wf_page(rows),
    ensures
        spec_page_image(rows).len() == if rows.len() == ROWS_PER_PAGE {
            PAGE_SIZE as int
        } else {
            rows.len() * ROW_SIZE
        },
        forall|i: int| 0 <= i < rows.len() ==> clean_row_block(
            row_block(spec_page_image(rows), i),
        ),
        spec_decode_rows(spec_page_image(rows), rows.len() as int) == rows,
{
    lemma_rows_bytes_len(rows);
    assert forall|i: int| 0 <= i < rows.len() implies clean_row_block(
        row_block(spec_page_image(rows), i),
    ) by {
        lemma_row_block_of_page_image(rows, i);
        lemma_row_round_trip(rows[i]);
    }
    assert forall|i: int| 0 <= i < rows.len() implies row_block(spec_page_image(rows), i)
        == spec_encode_row(rows[i]) by {
        lemma_row_block_of_page_image(rows, i);
    }
    lemma_decode_encoded_rows(spec_page_image(rows), rows);
}

impl Page {
    /// A fresh, empty page.
    pub fn new() -> (p: Page)
        ensures
            p@ == Seq::<RowModel>::empty(),
    {
        let p = Page { rows: Vec::new() };
        proof {
            assert(p@ =~= Seq::<RowModel>::empty());
        }
        p
    }

    /// How many rows the page holds.
    pub fn num_rows(&self) -> (n: usize)
        ensures
            n == self@.len(),
    {
        self.rows.len()
    }

    /// Appends a row at the end; fails exactly when the page is full, and a
    /// failed append leaves the page unchanged.
    pub fn append(&mut self, row: Row) -> (r: Result<(), PageFull>)
        requires
            valid_row(row@),
        ensures
            match r {
                Ok(()) => old(self)@.len() < ROWS_PER_PAGE && final(self)@ == old(self)@.push(
                    row@,
                ),
                Err(PageFull) => old(self)@.len() >= ROWS_PER_PAGE && final(self)@ == old(
                    self,
                )@,
            },
    {
        if self.rows.len() >= ROWS_PER_PAGE {
            return Err(PageFull);
        }
        self.rows.push(row);
        proof {
            assert(self@ =~= old(self)@.push(row@));
        }
        Ok(())
    }

    /// The row at `i`, or nothing past the end.
    pub fn get(&self, i: usize) -> (r: Option<&Row>)
        ensures
            match r {
                Some(row) => i < self@.len() && row@ == self@[i as int],
                None => i >= self@.len(),
            },
    {
        if i < self.rows.len() {
            Some(&self.rows[i])
        } else {
            None
        }
    }

    /// Serializes the page into the bytes it occupies on disk.
    pub fn image(&self) -> (b: Vec<u8>)
        requires
            wf_page(self@),
        ensures
            b@ == spec_page_image(self@),
    {
        let mut b: Vec<u8> = Vec::new();
        let mut i: usize = 0;
        while i < self.rows.len()
            invariant
                0 <= i <= self@.len(),
                wf_page(self@),
                self@.len() == self.rows@.len(),
                b@ == spec_rows_bytes(self@.take(i as int)),
            decreases self@.len() - i,
        {
            proof {
                assert(self.rows@[i as int]@ == self@[i as int]);
            }
            let mut enc = encode_row(&self.rows[i]);
            b.append(&mut enc);
            proof {
                assert(self@.take(i + 1 as int).drop_last() =~= self@.take(i as int));
                assert(self@.take(i + 1 as int).last() == self@[i as int]);
            }
            i = i + 1;
        }
        proof {
            assert(self@.take(self@.len() as int) =~= self@);
        }
        if self.rows.len() == ROWS_PER_PAGE {
            let mut i: usize = 0;
            let ghost base = b@;
            while i < PAGE_SIZE - ROWS_PER_PAGE * ROW_SIZE
                invariant
                    0 <= i <= PAGE_SIZE - ROWS_PER_PAGE * ROW_SIZE,
                    b@ == base + zeros(i as int),
                decreases PAGE_SIZE - ROWS_PER_PAGE * ROW_SIZE - i,
            {
                b.push(0);
                proof {
                    assert(base + zeros(i as int) + seq![0u8] =~= base + zeros(i + 1 as int));
                }
                i = i + 1;
            }
        }
        b
    }

    /// Reads the first `nrows` blocks of a page's on-disk bytes back into a
    /// page.  Fails exactly when some block is corrupt, that is, has text
    /// where its zero padding should be.
    pub fn from_bytes(b: &[u8], nrows: usize) -> (r: Option<Page>)
        requires
            nrows <= ROWS_PER_PAGE,
            nrows * ROW_SIZE <= b@.len(),
        ensures
            match r {
                Some(p) => {
                    &&& p@ == spec_decode_rows(b@, nrows as int)
                    &&& p@.len() == nrows
                    &&& wf_page(p@)
                },
                None => exists|i: int|
                    0 <= i < nrows && !clean_row_block(#[trigger] row_block(b@, i)),
            },
    {
        let blen: usize = b.len();
        let mut rows: Vec<Row> = Vec::new();
        let mut i: usize = 0;
        while i < nrows
            invariant
                0 <= i <= nrows,
                nrows <= ROWS_PER_PAGE,
                nrows * ROW_SIZE <= blen,
                blen == b@.len(),
                rows@.map_values(|r: Row| r@) == spec_decode_rows(b@, i as int),
                rows@.len() == i,
                forall|j: int| 0 <= j < i ==> valid_row((#[trigger] rows@[j])@),
            decreases nrows - i,
        {
            proof {
                assert(i * ROW_SIZE + ROW_SIZE <= nrows * ROW_SIZE);
            }
            match decode_row(b, i * ROW_SIZE) {
                Some(row) => {
                    proof {
                        assert(b@.subrange(
                            (i * ROW_SIZE) as int,
                            (i * ROW_SIZE + ROW_SIZE) as int,
                        ) =~= row_block(b@, i as int));
                        assert(rows@.push(row).map_values(|r: Row| r@) =~= rows@.map_values(
                            |r: Row| r@,
                        ).push(row@));
                    }
                    rows.push(row);
                },
                None => {
                    proof {
                        assert(b@.subrange(
                            (i * ROW_SIZE) as int,
                            (i * ROW_SIZE + ROW_SIZE) as int,
                        ) =~= row_block(b@, i as int));
                    }
                    return None;
                },
            }
            i = i + 1;
        }
        Some(Page { rows })
    }
}

} // verus!
