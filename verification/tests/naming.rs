use file_rotator::names::{make_logfile_name, parse_logfile_index};

#[test]
fn test_make_logfile_name() {
    assert_eq!(make_logfile_name("app", 0), "app.0.log");
    assert_eq!(make_logfile_name("app", 7), "app.7.log");
    assert_eq!(make_logfile_name("app", 10), "app.10.log");
    assert_eq!(make_logfile_name("loggylog", 1234567890), "loggylog.1234567890.log");
    assert_eq!(make_logfile_name("dotted.base", 3), "dotted.base.3.log");
}

#[test]
fn test_parse_roundtrip() {
    for &idx in &[0usize, 1, 9, 10, 99, 100, 123456789, usize::MAX] {
        let name = make_logfile_name("app", idx);
        assert_eq!(parse_logfile_index("app", &name), Some(idx));
    }
    for &idx in &[0usize, 5, 42] {
        let name = make_logfile_name("dotted.base", idx);
        assert_eq!(parse_logfile_index("dotted.base", &name), Some(idx));
    }
}

#[test]
fn test_parse_compressed_suffix_occupies_slot() {
    assert_eq!(parse_logfile_index("app", "app.7.log.zstd"), Some(7));
    assert_eq!(parse_logfile_index("app", "app.0.log.gz"), Some(0));
    assert_eq!(parse_logfile_index("app", "app.12.log.old.zstd"), Some(12));
}

#[test]
fn test_parse_leading_zeros() {
    assert_eq!(parse_logfile_index("app", "app.007.log"), Some(7));
    assert_eq!(parse_logfile_index("app", "app.00.log"), Some(0));
}

#[test]
fn test_parse_rejects_foreign_names() {
    assert_eq!(parse_logfile_index("app", "app.log"), None);
    assert_eq!(parse_logfile_index("app", "app..log"), None);
    assert_eq!(parse_logfile_index("app", "app.x.log"), None);
    assert_eq!(parse_logfile_index("app", "app.3.txt"), None);
    assert_eq!(parse_logfile_index("app", "app.3.logs"), None);
    assert_eq!(parse_logfile_index("app", "app.3x.log"), None);
    assert_eq!(parse_logfile_index("app", "app3.log"), None);
    assert_eq!(parse_logfile_index("app", "appx.3.log"), None);
    assert_eq!(parse_logfile_index("app", "other.3.log"), None);
    assert_eq!(parse_logfile_index("app", "readme.md"), None);
    assert_eq!(parse_logfile_index("app", "app.3"), None);
    assert_eq!(parse_logfile_index("app", ""), None);
    // A value too large for an index slot is not part of the set.
    assert_eq!(parse_logfile_index("app", "app.18446744073709551616.log"), None);
}
