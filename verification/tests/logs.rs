use exercises::logs::{LogEntry, LogLevel};

#[test]
fn level_names() {
    assert_eq!(LogLevel::Trace.name(), "Trace");
    assert_eq!(LogLevel::Debug.name(), "Debug");
    assert_eq!(LogLevel::Info.name(), "Info");
    assert_eq!(LogLevel::Warn.name(), "Warn");
    assert_eq!(LogLevel::Error.name(), "Error");
}

#[test]
fn entry_accessors() {
    let mut e = LogEntry::new(7, LogLevel::Warn, "disk almost full".to_string(), 42);
    assert_eq!(e.id(), 7);
    assert_eq!(e.level(), LogLevel::Warn);
    assert_eq!(e.message(), "disk almost full");
    assert_eq!(e.timestamp_ms(), 42);
    e.set_message("replaced".to_string());
    assert_eq!(e.message(), "replaced");
    assert_eq!(e.id(), 7);
}

#[test]
fn timestamp_text() {
    let e = LogEntry::new(1, LogLevel::Info, String::new(), 1_700_000_000_000);
    assert_eq!(e.timestamp_to_str(), "2023-11-14 22:13:20");
    let epoch = LogEntry::new(1, LogLevel::Info, String::new(), 999);
    assert_eq!(epoch.timestamp_to_str(), "1970-01-01 00:00:00");
}

#[test]
fn display_pads_short_ids() {
    let e = LogEntry::new(3, LogLevel::Info, "m".to_string(), 0);
    assert_eq!(e.to_display_string(), "( 3) [Info] 1970-01-01 00:00:00: m");
    let f = LogEntry::new(123, LogLevel::Error, "boom".to_string(), 60_000);
    assert_eq!(f.to_display_string(), "(123) [Error] 1970-01-01 00:01:00: boom");
}

#[test]
fn displayable_timestamps() {
    let ok = LogEntry::new(1, LogLevel::Info, String::new(), 8_210_266_876_799_999);
    assert!(ok.timestamp_displayable());
    assert_eq!(ok.timestamp_to_str(), "+262142-12-31 23:59:59");
    let too_late = LogEntry::new(1, LogLevel::Info, String::new(), 8_210_266_876_800_000);
    assert!(!too_late.timestamp_displayable());
    let wrapped = LogEntry::new(1, LogLevel::Info, String::new(), u64::MAX);
    assert!(wrapped.timestamp_displayable());
    assert_eq!(wrapped.timestamp_to_str(), "1969-12-31 23:59:59");
}

#[test]
fn earliest_displayable_timestamp() {
    let first = LogEntry::new(1, LogLevel::Info, String::new(), 18_438_409_472_480_751_616);
    assert!(first.timestamp_displayable());
    assert_eq!(first.timestamp_to_str(), "-262143-01-01 00:00:00");
    let day_before = LogEntry::new(1, LogLevel::Info, String::new(), 18_438_409_472_394_351_616);
    assert!(!day_before.timestamp_displayable());
    let just_before = LogEntry::new(1, LogLevel::Info, String::new(), 18_438_409_472_480_751_615);
    assert!(!just_before.timestamp_displayable());
}

#[test]
fn display_with_given_timestamp() {
    let e = LogEntry::new(42, LogLevel::Debug, "x".to_string(), 0);
    assert_eq!(e.display_with_timestamp("T"), "(42) [Debug] T: x");
}
