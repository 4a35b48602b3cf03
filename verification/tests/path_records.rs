use pbdems2::path_records::{is_record_line, parse_path_record};

#[test]
fn record_lines_are_realigned_and_padded() {
    let record = parse_path_record("12 3 1a2b 3412", 3, 2).expect("valid record");
    assert_eq!(record.offset, 3);
    assert_eq!(record.bits, 12);
    assert_eq!(record.fields, 3);
    assert_eq!(record.digest, 0x1a2b);
    assert_eq!(record.bytes, vec![0xa0, 0x11, 0, 0]);
}

#[test]
fn unaligned_records_keep_their_bytes() {
    let record = parse_path_record("  16\t0  +FF  abCD ", 0, 0).expect("valid record");
    assert_eq!(record.bits, 16);
    assert_eq!(record.fields, 0);
    assert_eq!(record.digest, 0xff);
    assert_eq!(record.bytes, vec![0xab, 0xcd]);
}

#[test]
fn malformed_record_lines_are_refused() {
    assert!(parse_path_record("12 3 1a2b", 0, 0).is_none());
    assert!(parse_path_record("12 3 1a2b 341", 0, 0).is_none());
    assert!(parse_path_record("12 3 xyz 3412", 0, 0).is_none());
    assert!(parse_path_record("12 3 1a2b 34", 0, 0).is_none());
    assert!(parse_path_record("12 3 1a2b 3412 extra", 0, 0).is_none());
    assert!(parse_path_record("-12 3 1a2b 3412", 0, 0).is_none());
    assert!(parse_path_record("12 3 10000000000000000 3412", 0, 0).is_none());
}

#[test]
fn comments_and_blank_lines_hold_no_record() {
    assert!(!is_record_line("# cs2 fixture"));
    assert!(!is_record_line(""));
    assert!(is_record_line("8 1 0 ff"));
}
