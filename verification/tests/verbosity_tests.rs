use grid_mirror::verbosity::{log_level, LogLevel};

#[test]
fn each_request_for_more_raises_the_level() {
    assert_eq!(log_level(0), LogLevel::Warn);
    assert_eq!(log_level(1), LogLevel::Info);
    assert_eq!(log_level(2), LogLevel::Debug);
    assert_eq!(log_level(3), LogLevel::Trace);
    assert_eq!(log_level(u64::MAX), LogLevel::Trace);
}
