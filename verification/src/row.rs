//! The row type, the layout constants, and row validity.
//!
//! A row is one logical record: an integer id and two bounded-length text
//! fields.  On disk every row occupies exactly `ROW_SIZE` bytes: the id in
//! its native four-byte little-endian form, then the username and email in
//! fixed-width zero-padded slots.  Because the decoder trims the zero
//! padding, a storable field holds no zero byte and fits its slot; that is
//! what `valid_field` and `valid_row` say.

use vstd::prelude::*;

verus! {

/// Width of the id field inside an encoded row, in bytes.
pub const ID_SIZE: usize = 4;

/// Width of the username slot inside an encoded row, in bytes.
pub const USERNAME_SIZE: usize = 32;

/// Width of the email slot inside an encoded row, in bytes.
pub const EMAIL_SIZE: usize = 255;

/// Byte offset of the id field inside an encoded row.
pub const ID_OFFSET: usize = 0;

/// Byte offset of the username slot inside an encoded row.
pub const USERNAME_OFFSET: usize = 4;

/// Byte offset of the email slot inside an encoded row.
pub const EMAIL_OFFSET: usize = 36;

/// Size of one encoded row, in bytes.
pub const ROW_SIZE: usize = 291;

/// Size of one on-disk page, in bytes.  Page `n` always starts at file
/// offset `n * PAGE_SIZE`.
pub const PAGE_SIZE: usize = 4096;

/// How many rows fit on one page.
pub const ROWS_PER_PAGE: usize = 12;

/// How many page slots a pager owns.
pub const MAX_PAGES: usize = 85;

/// Capacity of the whole table, in rows.
pub const MAX_TOTAL_ROWS: usize = 1020;

/// One logical record.  The id is caller-supplied and not checked for
/// uniqueness; the two text fields are byte strings bounded by their slot
/// widths.
#[derive(Debug, PartialEq, Eq)]
pub struct Row {
    pub id: i32,
    pub username: Vec<u8>,
    pub email: Vec<u8>,
}

/// The mathematical value of a row: the id as an unbounded integer and the
/// two fields as byte sequences.
pub struct RowModel {
    pub id: int,
    pub username: Seq<u8>,
    pub email: Seq<u8>,
}

impl View for Row {
    type V = RowModel;

    open spec fn view(&self) -> RowModel {
        RowModel { id: self.id as int, username: self.username@, email: self.email@ }
    }
}

/// A text field is storable when it fits its fixed-width slot and contains
/// no zero byte; the codec pads with zeros and trims them on decode, so a
/// zero byte inside the text would not survive a round trip.
pub open spec fn valid_field(f: Seq<u8>, width: int) -> bool {
    &&& f.len() <= width
    &&& forall|i: int| 0 <= i < f.len() ==> f[i] != 0
}

/// A row is storable when its id fits an `i32` and both text fields are
/// storable in their slots.
pub open spec fn valid_row(r: RowModel) -> bool {
    &&& i32::MIN <= r.id <= i32::MAX
    &&& valid_field(r.username, USERNAME_SIZE as int)
    &&& valid_field(r.email, EMAIL_SIZE as int)
}

/// Decides `valid_field` for one field.
pub fn field_fits(f: &Vec<u8>, width: usize) -> (ok: bool)
    ensures
        ok == valid_field(f@, width as int),
{
    if f.len() > width {
        return false;
    }
    let mut i: usize = 0;
    while i < f.len()
        invariant
            0 <= i <= f@.len(),
            f@.len() <= width,
            forall|j: int| 0 <= j < i ==> f@[j] != 0,
        decreases f@.len() - i,
    {
        if f[i] == 0 {
            return false;
        }
        i = i + 1;
    }
    true
}

/// Decides `valid_row` for one row.
pub fn row_fits(r: &Row) -> (ok: bool)
    ensures
        ok == valid_row(r@),
{
    field_fits(&r.username, USERNAME_SIZE) && field_fits(&r.email, EMAIL_SIZE)
}

/// Copies a byte vector element by element.
pub fn copy_bytes(v: &Vec<u8>) -> (r: Vec<u8>)
    ensures
        r@ == v@,
{
    let mut r: Vec<u8> = Vec::new();
    let mut i: usize = 0;
    while i < v.len()
        invariant
            0 <= i <= v@.len(),
            r@ == v@.take(i as int),
        decreases v@.len() - i,
    {
        r.push(v[i]);
        proof {
            assert(r@ =~= v@.take(i + 1 as int));
        }
        i = i + 1;
    }
    proof {
        assert(v@.take(v@.len() as int) =~= v@);
    }
    r
}

/// Copies a row; the copy has the same mathematical value.
pub fn clone_row(r: &Row) -> (c: Row)
    ensures
        c@ == r@,
{
    Row { id: r.id, username: copy_bytes(&r.username), email: copy_bytes(&r.email) }
}

} // verus!
