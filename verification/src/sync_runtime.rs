//! The timing of background syncs and which of their failures are worth a
//! log line.

use vstd::prelude::*;
use crate::mail_service::already_running_message;
use crate::text::{chars_equal, chars_of};

verus! {

/// Seconds between two rounds of background sync: five minutes.
pub const AUTO_SYNC_INTERVAL_SECS: u64 = 300;

/// Seconds between start-up and the first round of background sync.
pub const STARTUP_SYNC_DELAY_SECS: u64 = 3;

/// A background sync that failed because a sync of the same account was
/// already running is not reported; every other failure is.
pub fn should_report_background_error(error: &str) -> (r: bool)
    ensures
        r == (error@ != already_running_message()),
{
    proof {
        reveal_strlit("Sync is already running for this account.");
    }
    let running = chars_of("Sync is already running for this account.");
    !chars_equal(chars_of(error).as_slice(), running.as_slice())
}

} // verus!
