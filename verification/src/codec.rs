//! The record codec: a row to and from its fixed-width binary form.
//!
//! An encoded row is `ROW_SIZE` bytes: the id as four little-endian bytes of
//! its two's-complement value, then the username and the email, each in its
//! fixed-width slot, zero-padded on the right.  Decoding trims the padding
//! and rejects a block whose padding region holds a nonzero byte, so a
//! corrupt slot surfaces as a decode failure rather than as a silently
//! mangled field.

use vstd::prelude::*;
use crate::row::EMAIL_OFFSET;
use crate::row::EMAIL_SIZE;
use crate::row::ID_SIZE;
use crate::row::ROW_SIZE;
use crate::row::Row;
use crate::row::RowModel;
use crate::row::USERNAME_OFFSET;
use crate::row::USERNAME_SIZE;
use crate::row::valid_field;
use crate::row::valid_row;

verus! {

/// The two's-complement value of an id, as an integer in `[0, 2^32)`.
pub open spec fn id_to_unsigned(id: int) -> int {
    if id >= 0 {
        id
    } else {
        id + 0x1_0000_0000
    }
}

/// The id whose two's-complement value is `u`.
pub open spec fn unsigned_to_id(u: int) -> int {
    if u < 0x8000_0000 {
        u
    } else {
        u - 0x1_0000_0000
    }
}

/// The four little-endian bytes of an id's two's-complement value.
pub open spec fn spec_id_bytes(id: int) -> Seq<u8> {
    let u = id_to_unsigned(id);
    seq![
        (u % 256) as u8,
        ((u / 256) % 256) as u8,
        ((u / 65536) % 256) as u8,
        ((u / 16777216) % 256) as u8,
    ]
}

/// The id stored in four little-endian bytes.
pub open spec fn spec_bytes_id(b: Seq<u8>) -> int
    recommends
        b.len() == ID_SIZE,
{
    unsigned_to_id(b[0] + 256 * b[1] + 65536 * b[2] + 16777216 * b[3])
}

/// `n` zero bytes.
pub open spec fn zeros(n: int) -> Seq<u8> {
    Seq::new(n as nat, |i: int| 0u8)
}

/// A field padded with zeros to the width of its slot.
pub open spec fn spec_pad(f: Seq<u8>, width: int) -> Seq<u8>
    recommends
        f.len() <= width,
{
    f + zeros(width - f.len())
}

/// The length of the text stored in a slot: the number of bytes before the
/// first zero byte, or the whole slot if no byte is zero.
pub open spec fn trim_len(b: Seq<u8>) -> int
    decreases b.len(),
{
    if b.len() == 0 {
        0
    } else if b[0] == 0 {
        0
    } else {
        1 + trim_len(b.drop_first())
    }
}

/// The text stored in a slot, with the zero padding trimmed.
pub open spec fn spec_trim(b: Seq<u8>) -> Seq<u8> {
    b.take(trim_len(b))
}

/// A slot is clean when everything after the stored text is zero padding;
/// only a clean slot can have come from the encoder.
pub open spec fn clean_slot(b: Seq<u8>) -> bool {
    forall|j: int| trim_len(b) <= j < b.len() ==> b[j] == 0
}

/// The encoded form of a row: id bytes, then the two padded slots.
pub open spec fn spec_encode_row(r: RowModel) -> Seq<u8>
    recommends
        valid_row(r),
{
    spec_id_bytes(r.id) + spec_pad(r.username, USERNAME_SIZE as int) + spec_pad(
        r.email,
        EMAIL_SIZE as int,
    )
}

/// The username slot of an encoded row.
pub open spec fn username_slot(b: Seq<u8>) -> Seq<u8> {
    b.subrange(USERNAME_OFFSET as int, (USERNAME_OFFSET + USERNAME_SIZE) as int)
}

/// The email slot of an encoded row.
pub open spec fn email_slot(b: Seq<u8>) -> Seq<u8> {
    b.subrange(EMAIL_OFFSET as int, (EMAIL_OFFSET + EMAIL_SIZE) as int)
}

/// The row stored in an encoded block.
pub open spec fn spec_decode_row(b: Seq<u8>) -> RowModel
    recommends
        b.len() == ROW_SIZE,
{
    RowModel {
        id: spec_bytes_id(b.subrange(0, ID_SIZE as int)),
        username: spec_trim(username_slot(b)),
        email: spec_trim(email_slot(b)),
    }
}

/// A block decodes without error exactly when both slots are clean.
pub open spec fn clean_row_block(b: Seq<u8>) -> bool {
    clean_slot(username_slot(b)) && clean_slot(email_slot(b))
}

/// `trim_len` points at the first zero byte: everything before it is
/// nonzero, and if it is not the whole slot, the byte there is zero.
pub proof fn lemma_trim_len_bounds(b: Seq<u8>)
    ensures
        0 <= trim_len(b) <= b.len(),
        forall|j: int| 0 <= j < trim_len(b) ==> b[j] != 0,
        trim_len(b) < b.len() ==> b[trim_len(b)] == 0,
    decreases b.len(),
{
    if b.len() == 0 {
    } else if b[0] == 0 {
    } else {
        lemma_trim_len_bounds(b.drop_first());
        assert(forall|j: int| 0 <= j < trim_len(b.drop_first()) ==> b.drop_first()[j] != 0);
        assert(forall|j: int| 1 <= j < trim_len(b) ==> b[j] == b.drop_first()[j - 1]);
    }
}

/// Any index with the first-zero property is `trim_len`.
pub proof fn lemma_trim_len_unique(b: Seq<u8>, i: int)
    requires
        0 <= i <= b.len(),
        forall|j: int| 0 <= j < i ==> b[j] != 0,
        i < b.len() ==> b[i] == 0,
    ensures
        trim_len(b) == i,
{
    lemma_trim_len_bounds(b);
    if trim_len(b) < i {
        assert(b[trim_len(b)] != 0);
        assert(b[trim_len(b)] == 0);
    } else if trim_len(b) > i {
        assert(i < b.len());
        assert(b[i] != 0);
    }
}

/// Padding then trimming gives the field back, and the padded slot is clean.
pub proof fn lemma_pad_trim(f: Seq<u8>, width: int)
    requires
        valid_field(f, width),
    ensures
        spec_pad(f, width).len() == width,
        trim_len(spec_pad(f, width)) == f.len(),
        spec_trim(spec_pad(f, width)) == f,
        clean_slot(spec_pad(f, width)),
{
    let p = spec_pad(f, width);
    lemma_trim_len_unique(p, f.len() as int);
    assert(spec_trim(p) =~= f);
}

/// The little-endian byte decomposition of a 32-bit value is exact.
proof fn lemma_u32_radix(v: u32)
    by (bit_vector)
    ensures
        (v % 256) + 256 * ((v / 256) % 256) + 65536 * ((v / 65536) % 256) + 16777216 * ((v
            / 16777216) % 256) == v,
{
}

/// Encoding an id and reading the bytes back gives the id (the id part of
/// the round-trip law).
pub proof fn lemma_id_round_trip(id: int)
    requires
        i32::MIN <= id <= i32::MAX,
    ensures
        spec_id_bytes(id).len() == ID_SIZE,
        spec_bytes_id(spec_id_bytes(id)) == id,
{
    let u = id_to_unsigned(id);
    assert(0 <= u < 0x1_0000_0000);
    let v = u as u32;
    lemma_u32_radix(v);
}

/// Round-trip law for the record codec: a valid row, encoded and decoded,
/// comes back unchanged, and its encoded block is clean and `ROW_SIZE`
/// bytes long.
pub proof fn lemma_row_round_trip(r: RowModel)
    requires
        valid_row(r),
    ensures
        spec_encode_row(r).len() == ROW_SIZE,
        clean_row_block(spec_encode_row(r)),
        spec_decode_row(spec_encode_row(r)) == r,
{
    let b = spec_encode_row(r);
    lemma_pad_trim(r.username, USERNAME_SIZE as int);
    lemma_pad_trim(r.email, EMAIL_SIZE as int);
    lemma_id_round_trip(r.id);
    assert(b.subrange(0, ID_SIZE as int) =~= spec_id_bytes(r.id));
    assert(username_slot(b) =~= spec_pad(r.username, USERNAME_SIZE as int));
    assert(email_slot(b) =~= spec_pad(r.email, EMAIL_SIZE as int));
    assert(spec_decode_row(b).id == r.id);
    assert(spec_decode_row(b).username == r.username);
    assert(spec_decode_row(b).email == r.email);
}

/// Appends a field and its zero padding to the buffer.
fn push_padded(b: &mut Vec<u8>, f: &Vec<u8>, width: usize)
    requires
        f@.len() <= width,
        old(b)@.len() + width <= ROW_SIZE,
    ensures
        final(b)@ == old(b)@ + spec_pad(f@, width as int),
{
    let mut i: usize = 0;
    while i < f.len()
        invariant
            0 <= i <= f@.len(),
            f@.len() <= width,
            old(b)@.len() + width <= ROW_SIZE,
            b@ == old(b)@ + f@.take(i as int),
        decreases f@.len() - i,
    {
        b.push(f[i]);
        proof {
            assert(old(b)@ + f@.take(i as int) + seq![f@[i as int]] =~= old(b)@ + f@.take(
                i + 1 as int,
            ));
        }
        i = i + 1;
    }
    proof {
        assert(f@.take(f@.len() as int) =~= f@);
    }
    while i < width
        invariant
            f@.len() <= i <= width,
            old(b)@.len() + width <= ROW_SIZE,
            b@ == old(b)@ + f@ + zeros(i - f@.len()),
        decreases width - i,
    {
        b.push(0);
        proof {
            assert(old(b)@ + f@ + zeros(i - f@.len()) + seq![0u8] =~= old(b)@ + f@ + zeros(
                i + 1 - f@.len(),
            ));
        }
        i = i + 1;
    }
    proof {
        assert(old(b)@ + f@ + zeros(width - f@.len()) =~= old(b)@ + spec_pad(f@, width as int));
    }
}

/// Encodes a valid row as its `ROW_SIZE`-byte block.
pub fn encode_row(r: &Row) -> (b: Vec<u8>)
    requires
        valid_row(r@),
    ensures
        b@ == spec_encode_row(r@),
        b@.len() == ROW_SIZE,
{
    let mut b: Vec<u8> = Vec::new();
    let u: u32 = if r.id >= 0 {
        r.id as u32
    } else {
        ((r.id as i64) + 0x1_0000_0000i64) as u32
    };
    proof {
        assert(u as int == id_to_unsigned(r.id as int));
    }
    b.push((u % 256) as u8);
    b.push(((u / 256) % 256) as u8);
    b.push(((u / 65536) % 256) as u8);
    b.push(((u / 16777216) % 256) as u8);
    proof {
        assert(b@ =~= spec_id_bytes(r@.id));
    }
    push_padded(&mut b, &r.username, USERNAME_SIZE);
    push_padded(&mut b, &r.email, EMAIL_SIZE);
    proof {
        lemma_row_round_trip(r@);
        assert(b@ =~= spec_encode_row(r@));
    }
    b
}

/// Reads one slot out of an encoded block: the trimmed text if the slot is
/// clean, nothing if a nonzero byte hides in the padding.
fn decode_field(b: &[u8], off: usize, width: usize) -> (r: Option<Vec<u8>>)
    requires
        off + width <= b@.len(),
    ensures
        match r {
            Some(f) => {
                &&& clean_slot(b@.subrange(off as int, (off + width) as int))
                &&& f@ == spec_trim(b@.subrange(off as int, (off + width) as int))
                &&& valid_field(f@, width as int)
            },
            None => !clean_slot(b@.subrange(off as int, (off + width) as int)),
        },
{
    let ghost slot = b@.subrange(off as int, (off + width) as int);
    let blen: usize = b.len();
    let mut n: usize = 0;
    while n < width && b[off + n] != 0
        invariant
            0 <= n <= width,
            off + width <= blen,
            blen == b@.len(),
            slot == b@.subrange(off as int, (off + width) as int),
            forall|j: int| 0 <= j < n ==> slot[j] != 0,
        decreases width - n,
    {
        proof {
            assert(slot[n as int] == b@[off + n]);
        }
        n = n + 1;
    }
    proof {
        if n < width {
            assert(slot[n as int] == b@[off + n]);
        }
        lemma_trim_len_unique(slot, n as int);
    }
    let mut j: usize = n;
    while j < width
        invariant
            n <= j <= width,
            off + width <= blen,
            blen == b@.len(),
            slot == b@.subrange(off as int, (off + width) as int),
            trim_len(slot) == n,
            forall|k: int| n <= k < j ==> slot[k] == 0,
        decreases width - j,
    {
        if b[off + j] != 0 {
            proof {
                assert(slot[j as int] == b@[off + j]);
            }
            return None;
        }
        proof {
            assert(slot[j as int] == b@[off + j]);
        }
        j = j + 1;
    }
    let mut f: Vec<u8> = Vec::new();
    let mut i: usize = 0;
    while i < n
        invariant
            0 <= i <= n <= width,
            off + width <= blen,
            blen == b@.len(),
            slot == b@.subrange(off as int, (off + width) as int),
            trim_len(slot) == n,
            f@ == slot.take(n as int).take(i as int),
        decreases n - i,
    {
        f.push(b[off + i]);
        proof {
            assert(slot[i as int] == b@[off + i]);
            assert(slot.take(n as int).take(i as int).push(slot[i as int]) =~= slot.take(
                n as int,
            ).take(i + 1 as int));
        }
        i = i + 1;
    }
    proof {
        assert(slot.take(n as int).take(n as int) =~= spec_trim(slot));
        lemma_trim_len_bounds(slot);
    }
    Some(f)
}

/// Decodes one `ROW_SIZE`-byte block, starting at `off` inside `b`.
/// Succeeds exactly when both slots are clean; the decoded row is always
/// valid.
pub fn decode_row(b: &[u8], off: usize) -> (r: Option<Row>)
    requires
        off + ROW_SIZE <= b@.len(),
    ensures
        match r {
            Some(row) => {
                &&& clean_row_block(b@.subrange(off as int, (off + ROW_SIZE) as int))
                &&& row@ == spec_decode_row(b@.subrange(off as int, (off + ROW_SIZE) as int))
                &&& valid_row(row@)
            },
            None => !clean_row_block(b@.subrange(off as int, (off + ROW_SIZE) as int)),
        },
{
    let ghost block = b@.subrange(off as int, (off + ROW_SIZE) as int);
    let b0 = b[off] as u32;
    let b1 = b[off + 1] as u32;
    let b2 = b[off + 2] as u32;
    let b3 = b[off + 3] as u32;
    let u: u32 = b0 + 256 * b1 + 65536 * b2 + 16777216 * b3;
    let id: i32 = if u < 0x8000_0000 {
        u as i32
    } else {
        ((u as i64) - 0x1_0000_0000i64) as i32
    };
    proof {
        assert(block.subrange(0, ID_SIZE as int) =~= seq![b@[off as int], b@[off + 1], b@[off + 2], b@[off + 3]]);
        assert(id as int == spec_bytes_id(block.subrange(0, ID_SIZE as int)));
    }
    let username = match decode_field(b, off + USERNAME_OFFSET, USERNAME_SIZE) {
        Some(f) => f,
        None => {
            proof {
                assert(username_slot(block) =~= b@.subrange(
                    (off + USERNAME_OFFSET) as int,
                    (off + USERNAME_OFFSET + USERNAME_SIZE) as int,
                ));
            }
            return None;
        },
    };
    let email = match decode_field(b, off + EMAIL_OFFSET, EMAIL_SIZE) {
        Some(f) => f,
        None => {
            proof {
                assert(email_slot(block) =~= b@.subrange(
                    (off + EMAIL_OFFSET) as int,
                    (off + EMAIL_OFFSET + EMAIL_SIZE) as int,
                ));
            }
            return None;
        },
    };
    proof {
        assert(username_slot(block) =~= b@.subrange(
            (off + USERNAME_OFFSET) as int,
            (off + USERNAME_OFFSET + USERNAME_SIZE) as int,
        ));
        assert(email_slot(block) =~= b@.subrange(
            (off + EMAIL_OFFSET) as int,
            (off + EMAIL_OFFSET + EMAIL_SIZE) as int,
        ));
    }
    Some(Row { id: id, username: username, email: email })
}

} // verus!
