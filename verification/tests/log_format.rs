use kvlog::storage::log_storage::{parse_log_line, tombstone_bytes};

#[test]
fn tombstone_sentinel_bytes() {
    assert_eq!(tombstone_bytes(), b"__DELETED__".to_vec());
}

#[test]
fn parse_splits_at_first_tab() {
    assert_eq!(
        parse_log_line(&b"key\tvalue\n".to_vec()),
        Some((b"key".to_vec(), b"value".to_vec()))
    );
    assert_eq!(
        parse_log_line(&b"a\tb\tc\n".to_vec()),
        Some((b"a".to_vec(), b"b\tc".to_vec()))
    );
}

#[test]
fn parse_handles_missing_terminator() {
    assert_eq!(
        parse_log_line(&b"key\tvalue".to_vec()),
        Some((b"key".to_vec(), b"value".to_vec()))
    );
}

#[test]
fn parse_rejects_lines_without_tab() {
    assert_eq!(parse_log_line(&b"no separator here\n".to_vec()), None);
    assert_eq!(parse_log_line(&b"\n".to_vec()), None);
    assert_eq!(parse_log_line(&b"".to_vec()), None);
}

#[test]
fn parse_keeps_empty_fields() {
    assert_eq!(
        parse_log_line(&b"\tvalue\n".to_vec()),
        Some((b"".to_vec(), b"value".to_vec()))
    );
    assert_eq!(
        parse_log_line(&b"key\t\n".to_vec()),
        Some((b"key".to_vec(), b"".to_vec()))
    );
}
