use rowstore::codec::{decode_row, encode_row};
use rowstore::page::{Page, PageFull};
use rowstore::pager::{PageSlot, PagerError};
use rowstore::row::{clone_row, Row, MAX_PAGES, MAX_TOTAL_ROWS, PAGE_SIZE, ROWS_PER_PAGE, ROW_SIZE};
use rowstore::table::{InsertError, Table};

fn mk_row(id: i32, username: &str, email: &str) -> Row {
    Row {
        id,
        username: username.as_bytes().to_vec(),
        email: email.as_bytes().to_vec(),
    }
}

/// Writes every resident page of the table into an in-memory disk image and
/// returns it, exactly as a shutdown flush would write the backing file.
fn flush_to_image(t: &Table) -> Vec<u8> {
    let mut image = vec![0u8; t.flushed_file_len()];
    for p in 0..MAX_PAGES {
        if let Some(bytes) = t.flush_page(p) {
            let off = Table::page_offset(p);
            image[off..off + bytes.len()].copy_from_slice(&bytes);
        }
    }
    image
}

/// Reopens a table from an in-memory disk image, loading every page that
/// holds rows, as the command layer does against the real file.
fn reopen_from_image(image: &[u8]) -> Table {
    let mut t = Table::open(image.len());
    while let Some(p) = t.next_page_to_load() {
        let off = Table::page_offset(p);
        let len = t.page_disk_bytes(p);
        let res = t.load_page(p, &image[off..off + len]);
        assert!(res.is_ok());
    }
    t
}

#[test]
fn codec_round_trip_simple() {
    let r = mk_row(1, "bob", "bob@x.com");
    let b = encode_row(&r);
    assert_eq!(b.len(), ROW_SIZE);
    let back = decode_row(&b, 0).unwrap();
    assert_eq!(back, r);
}

#[test]
fn codec_round_trip_negative_id_and_extremes() {
    for id in [0, -1, 1, i32::MAX, i32::MIN, 123456789, -987654321] {
        let r = mk_row(id, "alice", "a@b.c");
        let b = encode_row(&r);
        let back = decode_row(&b, 0).unwrap();
        assert_eq!(back.id, id);
        assert_eq!(back, r);
    }
}

#[test]
fn codec_exact_layout() {
    let r = mk_row(1, "bob", "bob@x.com");
    let b = encode_row(&r);
    // id 1 in little-endian
    assert_eq!(&b[0..4], &[1, 0, 0, 0]);
    // username at its fixed offset, zero-padded to 32 bytes
    assert_eq!(&b[4..7], b"bob");
    assert!(b[7..36].iter().all(|&x| x == 0));
    // email at its fixed offset, zero-padded to 255 bytes
    assert_eq!(&b[36..45], b"bob@x.com");
    assert!(b[45..291].iter().all(|&x| x == 0));
}

#[test]
fn codec_exact_layout_negative_id() {
    let r = mk_row(-2, "x", "y");
    let b = encode_row(&r);
    // two's complement of -2, little-endian
    assert_eq!(&b[0..4], &[0xfe, 0xff, 0xff, 0xff]);
}

#[test]
fn codec_rejects_corrupt_padding() {
    let r = mk_row(7, "ann", "a@b.c");
    let mut b = encode_row(&r);
    // a nonzero byte after the username's terminating padding
    b[20] = 42;
    assert!(decode_row(&b, 0).is_none());
}

#[test]
fn page_append_until_full() {
    let mut pg = Page::new();
    for i in 0..ROWS_PER_PAGE {
        assert_eq!(pg.append(mk_row(i as i32, "u", "e")), Ok(()));
    }
    assert_eq!(pg.num_rows(), ROWS_PER_PAGE);
    assert_eq!(pg.append(mk_row(99, "u", "e")), Err(PageFull));
    assert_eq!(pg.num_rows(), ROWS_PER_PAGE);
    assert_eq!(pg.get(0).unwrap().id, 0);
    assert!(pg.get(ROWS_PER_PAGE).is_none());
}

#[test]
fn concrete_scenario_insert_then_select() {
    // open an empty file; insert {1, bob, bob@x.com}; select both ways
    let mut t = Table::open(0);
    let row = mk_row(1, "bob", "bob@x.com");
    assert_eq!(t.insert(clone_row(&row)), Ok(()));
    assert_eq!(t.select(1), Some(row));
    assert_eq!(t.select(2), None);
}

#[test]
fn lookup_all_inserted_rows() {
    let mut t = Table::open(0);
    let n = 40usize;
    for i in 0..n {
        let r = mk_row(i as i32, &format!("user{i}"), &format!("u{i}@x.com"));
        assert_eq!(t.insert(r), Ok(()));
    }
    for i in 0..n {
        let got = t.select(i as i32).expect("row must be found");
        assert_eq!(got.id, i as i32);
        assert_eq!(got.username, format!("user{i}").into_bytes());
        assert_eq!(got.email, format!("u{i}@x.com").into_bytes());
    }
    assert_eq!(t.select(n as i32), None);
    assert_eq!(t.select(-5), None);
}

#[test]
fn duplicate_ids_first_match_wins() {
    let mut t = Table::open(0);
    assert_eq!(t.insert(mk_row(5, "first", "f@x.com")), Ok(()));
    assert_eq!(t.insert(mk_row(5, "second", "s@x.com")), Ok(()));
    let got = t.select(5).unwrap();
    assert_eq!(got.username, b"first".to_vec());
}

#[test]
fn page_packing_row_twelve_starts_page_one() {
    let mut t = Table::open(0);
    for i in 0..(ROWS_PER_PAGE + 1) {
        assert_eq!(t.insert(mk_row(i as i32, "u", "e")), Ok(()));
    }
    // page 0 holds exactly ROWS_PER_PAGE rows
    match &t.pager.slots[0] {
        PageSlot::Resident(pg) => assert_eq!(pg.num_rows(), ROWS_PER_PAGE),
        PageSlot::Unloaded => panic!("page 0 must be resident"),
    }
    // row ROWS_PER_PAGE (0-indexed) sits on page 1 at index 0
    match &t.pager.slots[1] {
        PageSlot::Resident(pg) => {
            assert_eq!(pg.num_rows(), 1);
            assert_eq!(pg.get(0).unwrap().id, ROWS_PER_PAGE as i32);
        }
        PageSlot::Unloaded => panic!("page 1 must be resident"),
    }
}

#[test]
fn capacity_exact_then_table_full() {
    let mut t = Table::open(0);
    for i in 0..MAX_TOTAL_ROWS {
        assert_eq!(t.insert(mk_row(i as i32, "u", "e")), Ok(()), "row {i}");
    }
    assert_eq!(t.num_rows, MAX_TOTAL_ROWS);
    assert_eq!(
        t.insert(mk_row(-1, "extra", "e@x.com")),
        Err(InsertError::TableFull)
    );
    assert_eq!(t.num_rows, MAX_TOTAL_ROWS);
    // the visible rows are unchanged: the last row is still there, the
    // rejected one is not
    assert_eq!(t.select((MAX_TOTAL_ROWS - 1) as i32).unwrap().id, (MAX_TOTAL_ROWS - 1) as i32);
    assert_eq!(t.select(-1), None);
}

#[test]
fn oversized_username_rejected() {
    let mut t = Table::open(0);
    assert_eq!(t.insert(mk_row(1, "ok", "o@x.com")), Ok(()));
    let long = "x".repeat(33);
    assert_eq!(
        t.insert(mk_row(2, &long, "l@x.com")),
        Err(InsertError::RowTooLong)
    );
    assert_eq!(t.num_rows, 1);
    assert_eq!(t.select(2), None);
}

#[test]
fn oversized_email_rejected() {
    let mut t = Table::open(0);
    let long = "y".repeat(256);
    assert_eq!(
        t.insert(mk_row(3, "ok", &long)),
        Err(InsertError::RowTooLong)
    );
    assert_eq!(t.num_rows, 0);
}

#[test]
fn field_with_nul_byte_rejected() {
    // a zero byte inside a field would not survive the zero-padded layout,
    // so such a row is not storable
    let mut t = Table::open(0);
    let row = Row {
        id: 1,
        username: vec![97, 0, 98],
        email: b"a@b.c".to_vec(),
    };
    assert_eq!(t.insert(row), Err(InsertError::RowTooLong));
}

#[test]
fn persistence_round_trip() {
    let mut t = Table::open(0);
    let n = 30usize; // two full pages and a partial third
    for i in 0..n {
        let r = mk_row(i as i32, &format!("user{i}"), &format!("u{i}@x.com"));
        assert_eq!(t.insert(r), Ok(()));
    }
    let image = flush_to_image(&t);
    assert_eq!(image.len(), 2 * PAGE_SIZE + 6 * ROW_SIZE);
    drop(t);
    let t2 = reopen_from_image(&image);
    assert_eq!(t2.num_rows, n);
    for i in 0..n {
        let got = t2.select(i as i32).expect("row must survive reopen");
        assert_eq!(got.username, format!("user{i}").into_bytes());
        assert_eq!(got.email, format!("u{i}@x.com").into_bytes());
    }
    assert_eq!(t2.select(n as i32), None);
}

#[test]
fn persistence_round_trip_exactly_full_page() {
    let mut t = Table::open(0);
    for i in 0..ROWS_PER_PAGE {
        assert_eq!(t.insert(mk_row(i as i32, "u", "e")), Ok(()));
    }
    let image = flush_to_image(&t);
    assert_eq!(image.len(), PAGE_SIZE);
    let t2 = reopen_from_image(&image);
    assert_eq!(t2.num_rows, ROWS_PER_PAGE);
    assert_eq!(t2.select(0).unwrap().id, 0);
    assert_eq!(t2.select((ROWS_PER_PAGE - 1) as i32).unwrap().id, (ROWS_PER_PAGE - 1) as i32);
}

#[test]
fn persistence_then_more_inserts() {
    let mut t = Table::open(0);
    for i in 0..5 {
        assert_eq!(t.insert(mk_row(i, "a", "a@x.com")), Ok(()));
    }
    let image = flush_to_image(&t);
    let mut t2 = reopen_from_image(&image);
    for i in 5..9 {
        assert_eq!(t2.insert(mk_row(i, "b", "b@x.com")), Ok(()));
    }
    for i in 0..9 {
        let got = t2.select(i).unwrap();
        let want = if i < 5 { b"a".to_vec() } else { b"b".to_vec() };
        assert_eq!(got.username, want);
    }
}

#[test]
fn load_page_rejects_corrupt_block() {
    // a file holding one row on page 0
    let mut t = Table::open(ROW_SIZE);
    let p = t.next_page_to_load().expect("page 0 must need loading");
    assert_eq!(p, 0);
    let mut bytes = encode_row(&mk_row(1, "bob", "b@x.com"));
    bytes[20] = 42; // text where padding must be
    assert_eq!(t.load_page(0, &bytes), Err(PagerError::DecodeError));
    // no partial state: the page still needs loading
    assert_eq!(t.next_page_to_load(), Some(0));
    let good = encode_row(&mk_row(1, "bob", "b@x.com"));
    assert_eq!(t.load_page(0, &good), Ok(()));
    assert_eq!(t.next_page_to_load(), None);
    assert_eq!(t.select(1).unwrap().username, b"bob".to_vec());
}

#[test]
fn get_page_out_of_bounds() {
    let mut t = Table::open(0);
    assert_eq!(
        t.pager.get_page(MAX_PAGES),
        Err(PagerError::PageNumberOutOfBounds)
    );
    assert_eq!(t.pager.get_page(0), Ok(()));
}
