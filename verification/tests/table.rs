use chum_world::ngc::{NgcArchive, NgcError};

#[test]
fn table_renders_one_line_per_entry() {
    let mut t = NgcArchive::new();
    t.insert(1, "HELLO".to_string());
    t.insert(-5, "x".to_string());
    assert_eq!(t.write_to(), "1 \"HELLO\"\n-5 \"x\"\n");
}

#[test]
fn table_renders_extreme_ids() {
    let mut t = NgcArchive::new();
    t.insert(i32::MIN, "a".to_string());
    t.insert(i32::MAX, "b".to_string());
    t.insert(0, "c".to_string());
    assert_eq!(t.write_to(), "-2147483648 \"a\"\n2147483647 \"b\"\n0 \"c\"\n");
}

#[test]
fn insert_replaces_existing_id() {
    let mut t = NgcArchive::new();
    t.insert(7, "a".to_string());
    t.insert(8, "b".to_string());
    t.insert(7, "c".to_string());
    assert_eq!(t.names.len(), 2);
    assert_eq!(t.get(7).unwrap().as_str(), "c");
    assert_eq!(t.get(8).unwrap().as_str(), "b");
    assert!(t.get(9).is_none());
}

#[test]
fn table_round_trip() {
    let mut t = NgcArchive::new();
    t.insert(123, "GROUND".to_string());
    t.insert(-99, "SKY.TXT".to_string());
    let text = t.write_to();
    let u = NgcArchive::read_from(&text).unwrap();
    assert_eq!(u.names, t.names);
}

#[test]
fn parse_reads_lines() {
    let t = NgcArchive::read_from("1 \"A\"\n2 \"B\"\n").unwrap();
    assert_eq!(t.names, vec![(1, "A".to_string()), (2, "B".to_string())]);
}

#[test]
fn parse_handles_crlf_and_final_line() {
    let t = NgcArchive::read_from("1 \"A\"\r\n2 \"B\"").unwrap();
    assert_eq!(t.names, vec![(1, "A".to_string()), (2, "B".to_string())]);
}

#[test]
fn parse_stops_at_empty_line() {
    let t = NgcArchive::read_from("1 \"A\"\n\n2 \"B\"\n").unwrap();
    assert_eq!(t.names, vec![(1, "A".to_string())]);
}

#[test]
fn parse_stops_at_null_line() {
    let t = NgcArchive::read_from("1 \"A\"\n\\02 \"B\"\n".replace("\\0", "\0").as_str()).unwrap();
    assert_eq!(t.names, vec![(1, "A".to_string())]);
}

#[test]
fn parse_replaces_duplicate_ids() {
    let t = NgcArchive::read_from("7 \"a\"\n7 \"b\"\n").unwrap();
    assert_eq!(t.names, vec![(7, "b".to_string())]);
}

#[test]
fn parse_accepts_signed_ids() {
    let t = NgcArchive::read_from("-2147483648 \"m\"\n+5 \"p\"\n").unwrap();
    assert_eq!(t.names, vec![(i32::MIN, "m".to_string()), (5, "p".to_string())]);
}

#[test]
fn parse_takes_name_between_first_and_last_character() {
    // the name part is whatever sits between its two outermost characters
    let t = NgcArchive::read_from("5 xyz\n").unwrap();
    assert_eq!(t.names, vec![(5, "y".to_string())]);
}

#[test]
fn parse_rejects_missing_separator() {
    assert!(matches!(NgcArchive::read_from("abc"), Err(NgcError::MissingSeparator)));
}

#[test]
fn parse_rejects_bad_id() {
    assert!(matches!(NgcArchive::read_from("x \"y\"\n"), Err(NgcError::InvalidId)));
    assert!(matches!(NgcArchive::read_from("2147483648 \"y\"\n"), Err(NgcError::InvalidId)));
    assert!(matches!(NgcArchive::read_from("5x \"y\"\n"), Err(NgcError::InvalidId)));
    assert!(matches!(NgcArchive::read_from("- \"y\"\n"), Err(NgcError::InvalidId)));
}

#[test]
fn parse_rejects_short_name() {
    assert!(matches!(NgcArchive::read_from("5 \"\n"), Err(NgcError::InvalidName)));
    assert!(matches!(NgcArchive::read_from("5 \n"), Err(NgcError::InvalidName)));
}

#[test]
fn empty_input_is_empty_table() {
    let t = NgcArchive::read_from("").unwrap();
    assert!(t.names.is_empty());
}
