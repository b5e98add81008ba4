use maildock::sync_runtime::{
    should_report_background_error, AUTO_SYNC_INTERVAL_SECS, STARTUP_SYNC_DELAY_SECS,
};
use std::time::Duration;

#[test]
fn uses_five_minute_auto_sync_interval() {
    assert_eq!(Duration::from_secs(AUTO_SYNC_INTERVAL_SECS), Duration::from_secs(300));
}

#[test]
fn waits_briefly_after_start_and_skips_busy_accounts() {
    assert_eq!(STARTUP_SYNC_DELAY_SECS, 3);
    assert!(!should_report_background_error("Sync is already running for this account."));
    assert!(should_report_background_error("QQ IMAP login failed: no"));
}
