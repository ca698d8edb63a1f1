use plantastic::calendar::{days_to_ymd, is_leap};
use plantastic::logging::{
    env_flag_enabled, iso8601_from_clock, iso8601_from_unix_secs, log_file_name, now_iso8601, sanitize_timestamp, ClassificationContext,
    ClassificationLogger, ENV_VAR, LOG_DIR,
};
use std::path::PathBuf;

#[test]
fn epoch_and_known_dates() {
    assert_eq!(days_to_ymd(0), (1970, 1, 1));
    assert_eq!(days_to_ymd(31), (1970, 2, 1));
    assert_eq!(days_to_ymd(365), (1971, 1, 1));
    // 2000-02-29 is day 11016; 2024-06-20 is day 19894.
    assert_eq!(days_to_ymd(11016), (2000, 2, 29));
    assert_eq!(days_to_ymd(19894), (2024, 6, 20));
}

#[test]
fn leap_years() {
    assert!(is_leap(2000));
    assert!(is_leap(2024));
    assert!(!is_leap(1900));
    assert!(!is_leap(2023));
}

#[test]
fn iso8601_rendering() {
    assert_eq!(iso8601_from_unix_secs(0), "1970-01-01T00:00:00Z");
    assert_eq!(iso8601_from_unix_secs(1_718_900_000), "2024-06-20T16:13:20Z");
    assert_eq!(iso8601_from_unix_secs(951_782_399), "2000-02-28T23:59:59Z");
    let now = now_iso8601();
    assert_eq!(now.len(), 20);
    assert!(now.ends_with('Z'));
}

#[test]
fn sanitize_timestamp_for_file_names() {
    assert_eq!(sanitize_timestamp("2024-06-20T16:13:20Z"), "2024-06-20_16-13-20");
    assert_eq!(sanitize_timestamp(""), "");
}

#[test]
fn env_flag_values() {
    assert!(env_flag_enabled("1"));
    assert!(env_flag_enabled("true"));
    assert!(env_flag_enabled("TRUE"));
    assert!(env_flag_enabled("True"));
    assert!(!env_flag_enabled("0"));
    assert!(!env_flag_enabled("yes"));
    assert!(!env_flag_enabled(""));
    assert_eq!(ENV_VAR, "PLANTASTIC_LOG_CLASSIFICATIONS");
}

#[test]
fn log_file_names() {
    assert_eq!(log_file_name("scan-1", "2024-06-20T16:13:20Z"), "scan-1_2024-06-20_16-13-20.jsonl");
}

#[test]
fn logger_switches() {
    let off = ClassificationLogger::new("noop-scan".to_string(), None);
    assert!(!off.is_enabled());
    assert_eq!(off.file_name_for("2024-06-20T16:13:20Z"), None);
    assert_eq!(off.log_dir(), &PathBuf::from(LOG_DIR));
    let zero = ClassificationLogger::new("s".to_string(), Some("0"));
    assert!(!zero.is_enabled());
    let on = ClassificationLogger::new("s".to_string(), Some("1"));
    assert!(on.is_enabled());
    let dir = ClassificationLogger::with_dir("test-scan".to_string(), PathBuf::from("/tmp/x"));
    assert!(dir.is_enabled());
    assert_eq!(dir.scan_id(), "test-scan");
    assert_eq!(dir.log_dir(), &PathBuf::from("/tmp/x"));
    assert_eq!(dir.file_name_for("2024-01-02T03:04:05Z").as_deref(), Some("test-scan_2024-01-02_03-04-05.jsonl"));
    let ctx = ClassificationContext { address: "Powell & Market, SF".to_string(), climate_zone: "USDA 10b".to_string() };
    assert_eq!(ctx.climate_zone, "USDA 10b");
}

#[test]
fn logger_disabled_by_default() {
    // No value for the switch variable: logging stays off.
    let logger = ClassificationLogger::new("test-scan".to_string(), None);
    assert!(!logger.is_enabled());
}

#[test]
fn clock_before_epoch_reads_as_epoch() {
    assert_eq!(iso8601_from_clock(None), "1970-01-01T00:00:00Z");
    assert_eq!(iso8601_from_clock(Some(1_718_900_000)), "2024-06-20T16:13:20Z");
}
