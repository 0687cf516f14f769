use nextgen_studio::logline::{log_line_cut, log_needs_rotation, LOG_FILE_MAX, LOG_LINE_MAX};

#[test]
fn long_records_are_cut_at_char_boundaries() {
    assert_eq!(log_line_cut("short"), None);
    let exact = "a".repeat(LOG_LINE_MAX);
    assert_eq!(log_line_cut(&exact), None);
    let long = "a".repeat(LOG_LINE_MAX + 10);
    assert_eq!(log_line_cut(&long), Some(LOG_LINE_MAX));
    let mut wide = "a".repeat(LOG_LINE_MAX - 1);
    wide.push('é');
    wide.push_str("tail");
    assert_eq!(log_line_cut(&wide), Some(LOG_LINE_MAX - 1));
}

#[test]
fn files_rotate_past_the_limit() {
    assert!(!log_needs_rotation(0, 10));
    assert!(!log_needs_rotation(LOG_FILE_MAX - 10, 10));
    assert!(log_needs_rotation(LOG_FILE_MAX - 10, 11));
    assert!(log_needs_rotation(u64::MAX, 1));
}
