use lib::csv::{parse_str, to_string, Reader, Writer};

fn rows(v: &[&[&str]]) -> Vec<Vec<String>> {
    v.iter().map(|r| r.iter().map(|s| s.to_string()).collect()).collect()
}

#[test]
fn csv_parse_quoted_and_plain() {
    let recs = parse_str("a,b\n\"c,d\",\"e\"\"f\"\n").unwrap();
    assert_eq!(recs, rows(&[&["a", "b"], &["c,d", "e\"f"]]));
}

#[test]
fn csv_writes_back_the_same_text() {
    let recs = parse_str("a,b\n\"c,d\",\"e\"\"f\"\n").unwrap();
    assert_eq!(to_string(&recs), "a,b\n\"c,d\",\"e\"\"f\"\n");
}

#[test]
fn csv_blank_lines_crlf_and_empty_fields() {
    assert_eq!(parse_str("a\n\nb\n").unwrap(), rows(&[&["a"], &["b"]]));
    assert_eq!(parse_str("a,b\r\nc\r\n").unwrap(), rows(&[&["a", "b"], &["c"]]));
    assert_eq!(parse_str(",x,").unwrap(), rows(&[&["", "x", ""]]));
    assert_eq!(parse_str("").unwrap(), rows(&[]));
    assert_eq!(parse_str("\"multi\nline\",2").unwrap(), rows(&[&["multi\nline", "2"]]));
}

#[test]
fn csv_errors_carry_position() {
    let e = parse_str("\"abc").unwrap_err();
    assert_eq!((e.msg.as_str(), e.line, e.col), ("unterminated quoted field", 1, 5));
    let e = parse_str("x\n\"a\"x").unwrap_err();
    assert_eq!((e.msg.as_str(), e.line, e.col), ("expected delimiter or newline", 2, 4));
}

#[test]
fn csv_reader_with_delimiter_and_quote() {
    let mut r = Reader::new("a;'b;c'\n").delimiter(b';').quote(b'\'');
    assert_eq!(r.read_record().unwrap().unwrap(), vec!["a".to_string(), "b;c".to_string()]);
    assert!(r.read_record().is_none());
}

#[test]
fn csv_writer_quotes_when_needed() {
    let mut w = Writer::new();
    w.write_record(&["plain".to_string(), "with,comma".to_string(), "q\"uote".to_string()]);
    w.write_record(&["line\nbreak".to_string()]);
    assert_eq!(w.into_string(), "plain,\"with,comma\",\"q\"\"uote\"\n\"line\nbreak\"\n");
    let mut w = Writer::with_delim(b'\t');
    w.write_record(&["a b".to_string(), "c\td".to_string()]);
    assert_eq!(w.into_string(), "a b\t\"c\td\"\n");
}

#[test]
fn csv_round_trip_through_writer() {
    let recs = rows(&[&["x", "y,z", "\"q\""], &["", "é", "a\r\nb"]]);
    assert_eq!(parse_str(&to_string(&recs)).unwrap(), recs);
}

#[test]
fn csv_written_records_read_back() {
    let recs: Vec<Vec<String>> = vec![
        vec!["plain".to_string(), "with,comma".to_string(), "say \"hi\"".to_string()],
        vec!["line\nbreak".to_string(), "cr\rhere".to_string(), "".to_string()],
        vec!["".to_string(), "ünïcödé ✓".to_string()],
        vec!["\"".to_string()],
        vec![" spaced ".to_string()],
    ];
    let text = to_string(&recs);
    assert_eq!(parse_str(&text).unwrap(), recs);
}
