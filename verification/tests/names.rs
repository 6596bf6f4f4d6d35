use kvs::kv::log_path;
use kvs::kv::parse_log_name;

#[test]
fn log_path_formats_ids() {
    assert_eq!(log_path(0), "0-log.json");
    assert_eq!(log_path(7), "7-log.json");
    assert_eq!(log_path(42), "42-log.json");
    assert_eq!(log_path(1234567890), "1234567890-log.json");
}

#[test]
fn parse_inverts_log_path() {
    for id in [0usize, 1, 9, 10, 42, 99, 100, 4096, 1234567890] {
        assert_eq!(parse_log_name(&log_path(id)), Some(id));
    }
}

#[test]
fn parse_rejects_other_names() {
    assert_eq!(parse_log_name(""), None);
    assert_eq!(parse_log_name("-log.json"), None);
    assert_eq!(parse_log_name("abc"), None);
    assert_eq!(parse_log_name("12-log.jsonx"), None);
    assert_eq!(parse_log_name("12-log.txt"), None);
    assert_eq!(parse_log_name("x12-log.json"), None);
    // a non-canonical spelling of an identifier is not a segment name
    assert_eq!(parse_log_name("07-log.json"), None);
}
