//! The statement text: field splitting, integer parsing, and statement
//! classification for the command layer.
//!
//! A command line is split on single spaces, exactly as `"a  b"` splits
//! into `"a"`, `""`, `"b"`: consecutive separators yield empty fields.  An
//! insert takes its id from field 1 and its username and email from fields
//! 2 and 3; a select takes its id from field 1 with surrounding whitespace
//! trimmed.  A line is classified as an insert when its lowercased text
//! contains `insert`, else as a select when it contains `select`.

use vstd::prelude::*;
use crate::row::Row;
use crate::row::copy_bytes;

verus! {

/// The fields of `s`, split on single spaces; always at least one field.
pub open spec fn spec_fields(s: Seq<u8>) -> Seq<Seq<u8>>
    decreases s.len(),
{
    if s.len() == 0 {
        seq![Seq::<u8>::empty()]
    } else {
        let fs = spec_fields(s.drop_last());
        if s.last() == 32 {
            fs.push(Seq::<u8>::empty())
        } else {
            fs.update(fs.len() - 1, fs.last().push(s.last()))
        }
    }
}

/// A split always yields at least one field.
pub proof fn lemma_fields_nonempty(s: Seq<u8>)
    ensures
        spec_fields(s).len() >= 1,
    decreases s.len(),
{
    if s.len() > 0 {
        lemma_fields_nonempty(s.drop_last());
    }
}

/// Splits the input on single spaces.
pub fn split_fields(input: &[u8]) -> (r: Vec<Vec<u8>>)
    ensures
        r@.map_values(|f: Vec<u8>| f@) == spec_fields(input@),
        r@.len() >= 1,
{
    let n: usize = input.len();
    let mut done: Vec<Vec<u8>> = Vec::new();
    let mut cur: Vec<u8> = Vec::new();
    let mut j: usize = 0;
    proof {
        assert(done@.map_values(|f: Vec<u8>| f@).push(cur@) =~= spec_fields(
            input@.take(0),
        ));
    }
    while j < n
        invariant
            0 <= j <= n,
            n == input@.len(),
            spec_fields(input@.take(j as int)) == done@.map_values(|f: Vec<u8>| f@).push(cur@),
        decreases n - j,
    {
        let b = input[j];
        proof {
            assert(input@.take(j + 1 as int).drop_last() =~= input@.take(j as int));
            assert(input@.take(j + 1 as int).last() == input@[j as int]);
            lemma_fields_nonempty(input@.take(j as int));
        }
        if b == 32 {
            let ghost donev = done@.map_values(|f: Vec<u8>| f@);
            let ghost curv = cur@;
            done.push(cur);
            cur = Vec::new();
            proof {
                assert(done@.map_values(|f: Vec<u8>| f@) =~= donev.push(curv));
                assert(done@.map_values(|f: Vec<u8>| f@).push(cur@) =~= spec_fields(
                    input@.take(j + 1 as int),
                ));
            }
        } else {
            let ghost donev = done@.map_values(|f: Vec<u8>| f@);
            let ghost curv = cur@;
            cur.push(b);
            proof {
                let fs = donev.push(curv);
                assert(fs.update(fs.len() - 1, fs.last().push(input@[j as int])) =~= donev.push(
                    curv.push(input@[j as int]),
                ));
                assert(done@.map_values(|f: Vec<u8>| f@).push(cur@) =~= donev.push(
                    curv.push(input@[j as int]),
                ));
            }
        }
        j = j + 1;
    }
    proof {
        assert(input@.take(n as int) =~= input@);
    }
    let ghost donev = done@.map_values(|f: Vec<u8>| f@);
    let ghost curv = cur@;
    done.push(cur);
    proof {
        assert(done@.map_values(|f: Vec<u8>| f@) =~= donev.push(curv));
    }
    done
}

/// An ASCII decimal digit.
pub open spec fn is_digit(b: u8) -> bool {
    48 <= b <= 57
}

/// A nonempty run of ASCII digits.
pub open spec fn all_digits(s: Seq<u8>) -> bool {
    s.len() > 0 && forall|i: int| 0 <= i < s.len() ==> is_digit(#[trigger] s[i])
}

/// The number the digit run denotes, most significant digit first.
pub open spec fn digits_value(s: Seq<u8>) -> int
    decreases s.len(),
{
    if s.len() == 0 {
        0
    } else {
        digits_value(s.drop_last()) * 10 + (s.last() - 48)
    }
}

/// Powers of ten.
pub open spec fn pow10(k: int) -> int
    decreases k,
{
    if k <= 0 {
        1
    } else {
        10 * pow10(k - 1)
    }
}

/// What parsing a token as a 32-bit integer yields: an optional sign, then
/// one or more digits, the value within `i32` range; anything else fails.
pub open spec fn spec_parse_i32(s: Seq<u8>) -> Option<int> {
    if s.len() > 0 && (s[0] == 45 || s[0] == 43) {
        if all_digits(s.drop_first()) {
            let v = if s[0] == 45 {
                -digits_value(s.drop_first())
            } else {
                digits_value(s.drop_first())
            };
            if i32::MIN <= v <= i32::MAX {
                Some(v)
            } else {
                None
            }
        } else {
            None
        }
    } else if all_digits(s) {
        if digits_value(s) <= i32::MAX {
            Some(digits_value(s))
        } else {
            None
        }
    } else {
        None
    }
}

/// A digit run with a nonzero leading digit is at least the power of ten
/// of its length less one.
pub proof fn lemma_digits_lower(s: Seq<u8>)
    requires
        all_digits(s),
        s[0] >= 49,
    ensures
        digits_value(s) >= pow10(s.len() - 1),
    decreases s.len(),
{
    if s.len() == 1 {
        assert(digits_value(s.drop_last()) == 0);
        assert(pow10(0) == 1);
    } else {
        assert(s.drop_last()[0] == s[0]);
        lemma_digits_lower(s.drop_last());
        assert(pow10(s.len() - 1) == 10 * pow10(s.len() - 2));
        assert(digits_value(s) == digits_value(s.drop_last()) * 10 + (s.last() - 48));
    }
}

/// A leading zero does not change the value of a digit run.
proof fn lemma_drop_leading_zero(s: Seq<u8>)
    requires
        s.len() > 0,
        s[0] == 48,
    ensures
        digits_value(s) == digits_value(s.drop_first()),
    decreases s.len(),
{
    if s.len() == 1 {
        assert(digits_value(s.drop_last()) == 0);
        assert(s.drop_first() =~= Seq::<u8>::empty());
        assert(digits_value(s.drop_first()) == 0);
    } else {
        assert(s.drop_last()[0] == 48);
        lemma_drop_leading_zero(s.drop_last());
        assert(s.drop_last().drop_first() =~= s.drop_first().drop_last());
        assert(s.drop_first().last() == s.last());
        assert(digits_value(s.drop_first()) == digits_value(s.drop_first().drop_last()) * 10 + (
        s.drop_first().last() - 48));
    }
}

/// Powers of ten are positive.
proof fn lemma_pow10_pos(k: int)
    ensures
        pow10(k) >= 1,
    decreases k,
{
    if k > 0 {
        lemma_pow10_pos(k - 1);
    }
}

/// Ten is monotone in the exponent.
proof fn lemma_pow10_mono(a: int, b: int)
    requires
        a <= b,
    ensures
        pow10(a) <= pow10(b),
    decreases b - a,
{
    if a < b {
        lemma_pow10_mono(a, b - 1);
        lemma_pow10_pos(b - 1);
        if b > 0 {
            assert(pow10(b) == 10 * pow10(b - 1));
        }
    }
}

/// Parses a token as a 32-bit integer, exactly as `spec_parse_i32` says.
#[verifier::loop_isolation(false)]
pub fn parse_i32(tok: &[u8]) -> (r: Option<i32>)
    ensures
        match r {
            Some(v) => spec_parse_i32(tok@) == Some(v as int),
            None => spec_parse_i32(tok@) is None,
        },
{
    let n: usize = tok.len();
    if n == 0 {
        return None;
    }
    let start: usize = if tok[0] == 45 || tok[0] == 43 {
        1
    } else {
        0
    };
    let neg: bool = tok[0] == 45;
    if start >= n {
        return None;
    }
    let ghost body = if start == 1 {
        tok@.drop_first()
    } else {
        tok@
    };
    proof {
        assert(body =~= tok@.subrange(start as int, n as int));
    }
    // every byte of the body must be a digit
    let mut i: usize = start;
    while i < n
        invariant
            start <= i <= n,
            n == tok@.len(),
            body == tok@.subrange(start as int, n as int),
            forall|k: int| start <= k < i ==> is_digit(#[trigger] tok@[k]),
        decreases n - i,
    {
        let b = tok[i];
        if b < 48 || b > 57 {
            proof {
                assert(!is_digit(tok@[i as int]));
                assert(body[i - start as int] == tok@[i as int]);
                assert(!all_digits(body));
            }
            return None;
        }
        i = i + 1;
    }
    proof {
        assert forall|k: int| 0 <= k < body.len() implies is_digit(#[trigger] body[k]) by {
            assert(body[k] == tok@[k + start]);
        }
        assert(all_digits(body));
    }
    // skip leading zeros; they do not change the value
    let mut lo: usize = start;
    while lo < n && tok[lo] == 48
        invariant
            start <= lo <= n,
            n == tok@.len(),
            body == tok@.subrange(start as int, n as int),
            all_digits(body),
            digits_value(body) == digits_value(tok@.subrange(lo as int, n as int)),
        decreases n - lo,
    {
        proof {
            let cur = tok@.subrange(lo as int, n as int);
            assert(cur[0] == 48);
            lemma_drop_leading_zero(cur);
            assert(cur.drop_first() =~= tok@.subrange(lo + 1 as int, n as int));
        }
        lo = lo + 1;
    }
    let ghost mag = tok@.subrange(lo as int, n as int);
    proof {
        assert forall|k: int| 0 <= k < mag.len() implies is_digit(#[trigger] mag[k]) by {
            assert(mag[k] == tok@[k + lo]);
            assert(body[k + lo - start] == tok@[k + lo]);
        }
    }
    // more than ten significant digits cannot fit an i32
    if n - lo > 10 {
        proof {
            assert(mag[0] != 48 && is_digit(mag[0]));
            lemma_digits_lower(mag);
            lemma_pow10_mono(10, mag.len() - 1);
            assert(pow10(10) == 10000000000) by {
                assert(pow10(0) == 1);
                assert(pow10(1) == 10);
                assert(pow10(2) == 100);
                assert(pow10(3) == 1000);
                assert(pow10(4) == 10000);
                assert(pow10(5) == 100000);
                assert(pow10(6) == 1000000);
                assert(pow10(7) == 10000000);
                assert(pow10(8) == 100000000);
                assert(pow10(9) == 1000000000);
            }
            assert(digits_value(body) >= 10000000000);
        }
        return None;
    }
    // accumulate at most ten digits; the value stays below 10^10
    let mut acc: i64 = 0;
    let mut i2: usize = lo;
    proof {
        assert(tok@.subrange(lo as int, lo as int) =~= Seq::<u8>::empty());
    }
    while i2 < n
        invariant
            lo <= i2 <= n,
            n == tok@.len(),
            n - lo <= 10,
            forall|k: int| 0 <= k < mag.len() ==> is_digit(#[trigger] mag[k]),
            mag == tok@.subrange(lo as int, n as int),
            acc == digits_value(tok@.subrange(lo as int, i2 as int)),
            0 <= acc < pow10(i2 - lo as int),
        decreases n - i2,
    {
        let d = tok[i2];
        proof {
            let pre = tok@.subrange(lo as int, i2 as int);
            let post = tok@.subrange(lo as int, i2 + 1 as int);
            assert(post.drop_last() =~= pre);
            assert(post.last() == tok@[i2 as int]);
            assert(mag[i2 - lo as int] == tok@[i2 as int]);
            lemma_pow10_mono(i2 + 1 - lo as int, 10);
            assert(pow10(10) == 10000000000) by {
                assert(pow10(0) == 1);
                assert(pow10(1) == 10);
                assert(pow10(2) == 100);
                assert(pow10(3) == 1000);
                assert(pow10(4) == 10000);
                assert(pow10(5) == 100000);
                assert(pow10(6) == 1000000);
                assert(pow10(7) == 10000000);
                assert(pow10(8) == 100000000);
                assert(pow10(9) == 1000000000);
            }
        }
        acc = acc * 10 + ((d - 48) as i64);
        i2 = i2 + 1;
    }
    proof {
        assert(tok@.subrange(lo as int, n as int) =~= mag);
        assert(acc == digits_value(mag));
        assert(digits_value(body) == digits_value(mag));
    }
    if neg {
        if acc <= 2147483648i64 {
            Some((-acc) as i32)
        } else {
            None
        }
    } else {
        if acc <= 2147483647i64 {
            Some(acc as i32)
        } else {
            None
        }
    }
}

/// ASCII whitespace, as trimmed around a select's id field.
pub open spec fn is_ws(b: u8) -> bool {
    b == 32 || b == 9 || b == 10 || b == 13
}

/// The sequence with its leading whitespace removed.
pub open spec fn spec_trim_front(s: Seq<u8>) -> Seq<u8>
    decreases s.len(),
{
    if s.len() > 0 && is_ws(s[0]) {
        spec_trim_front(s.drop_first())
    } else {
        s
    }
}

/// The sequence with its trailing whitespace removed.
pub open spec fn spec_trim_back(s: Seq<u8>) -> Seq<u8>
    decreases s.len(),
{
    if s.len() > 0 && is_ws(s.last()) {
        spec_trim_back(s.drop_last())
    } else {
        s
    }
}

/// The sequence with whitespace removed from both ends.
pub open spec fn spec_trim_ws(s: Seq<u8>) -> Seq<u8> {
    spec_trim_back(spec_trim_front(s))
}

/// Trims ASCII whitespace from both ends of a token.
pub fn trim_ws(tok: &[u8]) -> (r: Vec<u8>)
    ensures
        r@ == spec_trim_ws(tok@),
{
    let n: usize = tok.len();
    proof {
        assert(tok@.subrange(0, n as int) =~= tok@);
    }
    let mut lo: usize = 0;
    while lo < n && (tok[lo] == 32 || tok[lo] == 9 || tok[lo] == 10 || tok[lo] == 13)
        invariant
            0 <= lo <= n,
            n == tok@.len(),
            spec_trim_front(tok@) == spec_trim_front(tok@.subrange(lo as int, n as int)),
        decreases n - lo,
    {
        proof {
            let cur = tok@.subrange(lo as int, n as int);
            assert(is_ws(cur[0]));
            assert(cur.drop_first() =~= tok@.subrange(lo + 1 as int, n as int));
        }
        lo = lo + 1;
    }
    proof {
        let cur = tok@.subrange(lo as int, n as int);
        if cur.len() > 0 {
            assert(!is_ws(cur[0]));
        }
        assert(spec_trim_front(tok@) == cur);
    }
    let mut hi: usize = n;
    while hi > lo && (tok[hi - 1] == 32 || tok[hi - 1] == 9 || tok[hi - 1] == 10 || tok[hi - 1]
        == 13)
        invariant
            lo <= hi <= n,
            n == tok@.len(),
            spec_trim_front(tok@) == tok@.subrange(lo as int, n as int),
            spec_trim_back(tok@.subrange(lo as int, n as int)) == spec_trim_back(
                tok@.subrange(lo as int, hi as int),
            ),
        decreases hi,
    {
        proof {
            let cur = tok@.subrange(lo as int, hi as int);
            assert(is_ws(cur.last()));
            assert(cur.drop_last() =~= tok@.subrange(lo as int, hi - 1 as int));
        }
        hi = hi - 1;
    }
    proof {
        let cur = tok@.subrange(lo as int, hi as int);
        if cur.len() > 0 {
            assert(!is_ws(cur.last()));
        }
        assert(spec_trim_ws(tok@) == cur);
    }
    let mut r: Vec<u8> = Vec::new();
    let mut i: usize = lo;
    while i < hi
        invariant
            lo <= i <= hi <= n,
            n == tok@.len(),
            r@ == tok@.subrange(lo as int, i as int),
        decreases hi - i,
    {
        r.push(tok[i]);
        proof {
            assert(tok@.subrange(lo as int, i as int).push(tok@[i as int]) =~= tok@.subrange(
                lo as int,
                i + 1 as int,
            ));
        }
        i = i + 1;
    }
    proof {
        assert(r@ == tok@.subrange(lo as int, hi as int));
    }
    r
}

/// Builds a row from an insert command line: the id from field 1, the
/// username from field 2, the email from field 3.  Fails exactly when the
/// line has fewer than four fields or the id does not parse.
pub fn get_insert_values(input: &[u8]) -> (r: Option<Row>)
    ensures
        ({
            let fs = spec_fields(input@);
            match r {
                Some(row) => {
                    &&& fs.len() >= 4
                    &&& spec_parse_i32(fs[1]) == Some(row@.id)
                    &&& row@.username == fs[2]
                    &&& row@.email == fs[3]
                },
                None => fs.len() < 4 || spec_parse_i32(fs[1]) is None,
            }
        }),
{
    let fields = split_fields(input);
    if fields.len() < 4 {
        return None;
    }
    proof {
        assert(fields@.map_values(|f: Vec<u8>| f@)[1] == fields@[1]@);
        assert(fields@.map_values(|f: Vec<u8>| f@)[2] == fields@[2]@);
        assert(fields@.map_values(|f: Vec<u8>| f@)[3] == fields@[3]@);
    }
    let id = match parse_i32(fields[1].as_slice()) {
        Some(v) => v,
        None => {
            return None;
        },
    };
    Some(Row { id: id, username: copy_bytes(&fields[2]), email: copy_bytes(&fields[3]) })
}

/// Reads the id from a select command line: field 1, with surrounding
/// whitespace trimmed.  Fails exactly when the line has fewer than two
/// fields or the id does not parse.
pub fn get_id_select(input: &[u8]) -> (r: Option<i32>)
    ensures
        ({
            let fs = spec_fields(input@);
            match r {
                Some(v) => fs.len() >= 2 && spec_parse_i32(spec_trim_ws(fs[1])) == Some(v as int),
                None => fs.len() < 2 || spec_parse_i32(spec_trim_ws(fs[1])) is None,
            }
        }),
{
    let fields = split_fields(input);
    if fields.len() < 2 {
        return None;
    }
    proof {
        assert(fields@.map_values(|f: Vec<u8>| f@)[1] == fields@[1]@);
    }
    let trimmed = trim_ws(fields[1].as_slice());
    parse_i32(trimmed.as_slice())
}


/// What a command line was recognized as.
#[derive(Debug, PartialEq, Eq)]
pub enum StatementType {
    Initial,
    StatementSelect,
    StatementInsert,
}

/// The ASCII-lowercased byte.
pub open spec fn ascii_lower(b: u8) -> u8 {
    if 65 <= b <= 90 {
        (b + 32) as u8
    } else {
        b
    }
}

/// The ASCII-lowercased sequence.
pub open spec fn lower_seq(s: Seq<u8>) -> Seq<u8> {
    s.map_values(|b: u8| ascii_lower(b))
}

/// Whether the lowercased text contains the word anywhere.
pub open spec fn contains_word(s: Seq<u8>, w: Seq<u8>) -> bool {
    exists|i: int|
        0 <= i <= s.len() - w.len() && #[trigger] lower_seq(s).subrange(i, i + w.len()) == w
}

/// The bytes of the word `insert`.
pub open spec fn insert_word() -> Seq<u8> {
    seq![105u8, 110u8, 115u8, 101u8, 114u8, 116u8]
}

/// The bytes of the word `select`.
pub open spec fn select_word() -> Seq<u8> {
    seq![115u8, 101u8, 108u8, 101u8, 99u8, 116u8]
}

/// Lowercases one ASCII byte.
fn lower_byte(b: u8) -> (l: u8)
    ensures
        l == ascii_lower(b),
{
    if b >= 65 && b <= 90 {
        b + 32
    } else {
        b
    }
}

/// Whether the lowercased input carries `w` at position `i`.
#[verifier::loop_isolation(false)]
fn lower_eq_at(input: &[u8], i: usize, w: &[u8]) -> (b: bool)
    requires
        i + w@.len() <= input@.len(),
    ensures
        b == (lower_seq(input@).subrange(i as int, i + w@.len()) == w@),
{
    let n: usize = input.len();
    let m: usize = w.len();
    let mut j: usize = 0;
    while j < m
        invariant
            0 <= j <= m,
            forall|k: int| 0 <= k < j ==> ascii_lower(input@[i + k]) == w@[k],
        decreases m - j,
    {
        if lower_byte(input[i + j]) != w[j] {
            proof {
                assert(lower_seq(input@)[i + j] == ascii_lower(input@[i + j]));
                assert(lower_seq(input@).subrange(i as int, i + w@.len())[j as int]
                    == ascii_lower(input@[i + j]));
            }
            return false;
        }
        j = j + 1;
    }
    proof {
        assert(lower_seq(input@).subrange(i as int, i + w@.len()) =~= w@);
    }
    true
}

/// Whether the lowercased input contains `w` anywhere.
#[verifier::loop_isolation(false)]
fn contains_lower(input: &[u8], w: &[u8]) -> (b: bool)
    requires
        w@.len() >= 1,
    ensures
        b == contains_word(input@, w@),
{
    let n: usize = input.len();
    let m: usize = w.len();
    if n < m {
        return false;
    }
    let mut i: usize = 0;
    while i <= n - m
        invariant
            0 <= i <= n - m + 1,
            forall|j: int|
                0 <= j < i ==> #[trigger] lower_seq(input@).subrange(j, j + w@.len()) != w@,
        decreases n - m + 1 - i,
    {
        if lower_eq_at(input, i, w) {
            return true;
        }
        i = i + 1;
    }
    false
}

/// Builds the word `insert` as bytes.
fn insert_bytes() -> (w: Vec<u8>)
    ensures
        w@ == insert_word(),
{
    let mut w: Vec<u8> = Vec::new();
    w.push(105);
    w.push(110);
    w.push(115);
    w.push(101);
    w.push(114);
    w.push(116);
    proof {
        assert(w@ =~= insert_word());
    }
    w
}

/// Builds the word `select` as bytes.
fn select_bytes() -> (w: Vec<u8>)
    ensures
        w@ == select_word(),
{
    let mut w: Vec<u8> = Vec::new();
    w.push(115);
    w.push(101);
    w.push(108);
    w.push(101);
    w.push(99);
    w.push(116);
    proof {
        assert(w@ =~= select_word());
    }
    w
}

/// Classifies a command line: an insert when its lowercased text contains
/// `insert`, else a select when it contains `select`, else unrecognized.
pub fn prepare_statement(input: &[u8]) -> (st: StatementType)
    ensures
        st == StatementType::StatementInsert <==> contains_word(input@, insert_word()),
        st == StatementType::StatementSelect <==> !contains_word(input@, insert_word())
            && contains_word(input@, select_word()),
        st == StatementType::Initial <==> !contains_word(input@, insert_word())
            && !contains_word(input@, select_word()),
{
    let iw = insert_bytes();
    if contains_lower(input, iw.as_slice()) {
        return StatementType::StatementInsert;
    }
    let sw = select_bytes();
    if contains_lower(input, sw.as_slice()) {
        return StatementType::StatementSelect;
    }
    StatementType::Initial
}

} // verus!
