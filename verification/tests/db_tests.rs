use image_filter::db::{history_limit, DEFAULT_HISTORY_LIMIT};

#[test]
fn history_limit_defaults_to_one_hundred() {
    assert_eq!(history_limit(None), 100);
    assert_eq!(DEFAULT_HISTORY_LIMIT, 100);
}

#[test]
fn history_limit_keeps_requested_value() {
    assert_eq!(history_limit(Some(5)), 5);
    assert_eq!(history_limit(Some(0)), 0);
    assert_eq!(history_limit(Some(u32::MAX)), u32::MAX as i64);
}
