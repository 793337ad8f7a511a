use rowstore::input::{
    get_id_select, get_insert_values, parse_i32, prepare_statement, split_fields, trim_ws,
    StatementType,
};

#[test]
fn split_on_single_spaces() {
    let fields = split_fields(b"insert 1 bob bob@x.com");
    let got: Vec<&[u8]> = fields.iter().map(|f| f.as_slice()).collect();
    assert_eq!(
        got,
        vec![
            b"insert".as_slice(),
            b"1".as_slice(),
            b"bob".as_slice(),
            b"bob@x.com".as_slice()
        ]
    );
}

#[test]
fn split_keeps_empty_fields() {
    let fields = split_fields(b"a  b");
    let got: Vec<&[u8]> = fields.iter().map(|f| f.as_slice()).collect();
    assert_eq!(got, vec![b"a".as_slice(), b"".as_slice(), b"b".as_slice()]);
    assert_eq!(split_fields(b"").len(), 1);
    assert_eq!(split_fields(b" ").len(), 2);
}

#[test]
fn parse_i32_values() {
    assert_eq!(parse_i32(b"0"), Some(0));
    assert_eq!(parse_i32(b"42"), Some(42));
    assert_eq!(parse_i32(b"-42"), Some(-42));
    assert_eq!(parse_i32(b"+7"), Some(7));
    assert_eq!(parse_i32(b"0012"), Some(12));
    assert_eq!(parse_i32(b"2147483647"), Some(i32::MAX));
    assert_eq!(parse_i32(b"-2147483648"), Some(i32::MIN));
}

#[test]
fn parse_i32_rejections() {
    assert_eq!(parse_i32(b""), None);
    assert_eq!(parse_i32(b"-"), None);
    assert_eq!(parse_i32(b"+"), None);
    assert_eq!(parse_i32(b"abc"), None);
    assert_eq!(parse_i32(b"12a"), None);
    assert_eq!(parse_i32(b"2147483648"), None);
    assert_eq!(parse_i32(b"-2147483649"), None);
    assert_eq!(parse_i32(b"99999999999999999999"), None);
    assert_eq!(parse_i32(b"1 2"), None);
}

#[test]
fn trim_whitespace_both_ends() {
    assert_eq!(trim_ws(b"  7\n"), b"7".to_vec());
    assert_eq!(trim_ws(b"\t x \r\n"), b"x".to_vec());
    assert_eq!(trim_ws(b""), b"".to_vec());
    assert_eq!(trim_ws(b"   "), b"".to_vec());
}

#[test]
fn insert_values_from_command_line() {
    let row = get_insert_values(b"insert 1 bob bob@x.com").unwrap();
    assert_eq!(row.id, 1);
    assert_eq!(row.username, b"bob".to_vec());
    assert_eq!(row.email, b"bob@x.com".to_vec());
}

#[test]
fn insert_values_rejects_bad_lines() {
    assert!(get_insert_values(b"insert 1 bob").is_none());
    assert!(get_insert_values(b"insert nan bob b@x.com").is_none());
    assert!(get_insert_values(b"insert").is_none());
}

#[test]
fn id_from_select_line() {
    assert_eq!(get_id_select(b"select 1"), Some(1));
    assert_eq!(get_id_select(b"select 42\n"), Some(42));
    assert_eq!(get_id_select(b"select -3"), Some(-3));
    assert_eq!(get_id_select(b"select"), None);
    assert_eq!(get_id_select(b"select x"), None);
}

#[test]
fn statement_classification() {
    assert_eq!(
        prepare_statement(b"insert 1 bob b@x.com"),
        StatementType::StatementInsert
    );
    assert_eq!(
        prepare_statement(b"INSERT 1 bob b@x.com"),
        StatementType::StatementInsert
    );
    assert_eq!(prepare_statement(b"select 1"), StatementType::StatementSelect);
    assert_eq!(prepare_statement(b"SeLeCt 1"), StatementType::StatementSelect);
    assert_eq!(prepare_statement(b"drop table"), StatementType::Initial);
    assert_eq!(prepare_statement(b""), StatementType::Initial);
}
