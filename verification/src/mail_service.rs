//! The decisions of a mailbox sync: one sync per account at a time, where
//! the saved authorization code is looked up, when a saved code counts as
//! saved, which accounts can sync with a saved code, and what is reported.

use std::collections::HashSet;
use vstd::prelude::*;
use crate::db::{upsert_row_matches, MessageUpsertRow};
use crate::imap::QqInboxSyncInput;
use crate::models::MailMessageView;
use crate::models::ProviderKind;
use crate::text::{normalize_address, normalized_address, trim, trim_chars, chars_of, string_of, chars_equal};

verus! {

broadcast use vstd::std_specs::hash::group_hash_axioms;

/// The folder that syncs read.
pub const INBOX_FOLDER: &'static str = "INBOX";

/// What a sync of a QQ inbox reports to the user interface.
pub struct QqInboxSyncReport {
    pub account_id: i64,
    pub address: String,
    pub folder: String,
    pub fetched: usize,
    pub stored: usize,
    pub total_inbox_messages: u32,
    pub credential_saved: bool,
}

/// A request to sync an account with its saved authorization code, with the
/// number of messages to fetch (50 when none is given).
pub struct SavedQqInboxSyncInput {
    pub account_id: i64,
    pub limit: Option<u32>,
}

/// Sent when a sync of a folder starts.
pub struct SyncStartedEvent {
    pub account_id: i64,
    pub folder: String,
}

/// Sent when a sync of a folder ends well.
pub struct SyncFinishedEvent {
    pub account_id: i64,
    pub folder: String,
    pub stored: usize,
    pub last_success_at: String,
}

/// Sent when a sync of a folder fails.
pub struct SyncFailedEvent {
    pub account_id: i64,
    pub folder: String,
    pub message: String,
    pub last_attempt_at: String,
}

/// Sent when the cached messages of a folder have changed.
pub struct MessagesChangedEvent {
    pub account_id: i64,
    pub folder: String,
}

pub open spec fn already_running_message() -> Seq<char> {
    "Sync is already running for this account."@
}

// ---------------------------------------------------------------------------
// One sync per account
// ---------------------------------------------------------------------------
/// The accounts whose sync is running.
pub struct SyncLocks {
    running: HashSet<i64>,
}

impl View for SyncLocks {
    type V = Set<i64>;

    closed spec fn view(&self) -> Set<i64> {
        self.running@
    }
}

impl SyncLocks {
    /// No sync running.
    pub fn new() -> (r: SyncLocks)
        ensures
            r@ == Set::<i64>::empty(),
    {
        SyncLocks { running: HashSet::new() }
    }

    /// Whether a sync of `account_id` is running.
    pub fn is_running(&self, account_id: i64) -> (r: bool)
        ensures
            r == self@.contains(account_id),
    {
        self.running.contains(&account_id)
    }
}

/// The right to sync one account, held while its sync runs.
pub struct AccountSyncGuard {
    pub account_id: i64,
}

impl AccountSyncGuard {
    /// Marks a sync of `account_id` as running; refused while one is.
    pub fn acquire(locks: &mut SyncLocks, account_id: i64) -> (r: Result<AccountSyncGuard, String>)
        ensures
            r is Ok <==> !old(locks)@.contains(account_id),
            r matches Ok(guard) ==> guard.account_id == account_id && final(locks)@ == old(
                locks,
            )@.insert(account_id),
            r matches Err(e) ==> e@ == already_running_message() && final(locks)@ == old(
                locks,
            )@,
    {
        if locks.running.contains(&account_id) {
            return Err(String::from_str("Sync is already running for this account."));
        }
        locks.running.insert(account_id);
        Ok(AccountSyncGuard { account_id })
    }

    /// Ends the sync that this guard was held for.
    pub fn release(self, locks: &mut SyncLocks)
        ensures
            final(locks)@ == old(locks)@.remove(self.account_id),
    {
        locks.running.remove(&self.account_id);
        assert(final(locks)@ =~= old(locks)@.remove(self.account_id));
    }
}

// ---------------------------------------------------------------------------
// The saved authorization code
// ---------------------------------------------------------------------------
/// Which credential the lookup of a saved code has just read.
#[derive(Debug, Clone, Copy, PartialEq, Eq, Structural)]
pub enum CodeLookup {
    /// The mailbox's own credential, kept under its address.
    Primary,
    /// The credential of the older scheme, kept under the account id.
    Legacy,
}

/// What to do after a read of the credential store.
pub enum LookupAction {
    /// Read the legacy credential next.
    ReadLegacy,
    /// The saved code.
    Use(String),
    /// Save this code under the mailbox's own key, then use it.
    MigrateAndUse(String),
    /// No code is saved.
    Fail(String),
}

pub open spec fn missing_code_message() -> Seq<char> {
    "No saved QQ authorization code found. Import this mailbox again to enable automatic sync."@
}

/// The lookup reads the mailbox's own credential first and then the legacy
/// one; a code found only under the legacy key is copied to the mailbox's
/// own key.
pub fn next_lookup_action(step: CodeLookup, read: Option<String>) -> (r: LookupAction)
    ensures
        match (step, read) {
            (CodeLookup::Primary, Some(s)) => r matches LookupAction::Use(c) && c@ == s@,
            (CodeLookup::Primary, None) => r is ReadLegacy,
            (CodeLookup::Legacy, Some(s)) => r matches LookupAction::MigrateAndUse(c) && c@ == s@,
            (CodeLookup::Legacy, None) => r matches LookupAction::Fail(m) && m@
                == missing_code_message(),
        },
{
    match (step, read) {
        (CodeLookup::Primary, Some(s)) => LookupAction::Use(s),
        (CodeLookup::Primary, None) => LookupAction::ReadLegacy,
        (CodeLookup::Legacy, Some(s)) => LookupAction::MigrateAndUse(s),
        (CodeLookup::Legacy, None) => LookupAction::Fail(
            String::from_str(
                "No saved QQ authorization code found. Import this mailbox again to enable automatic sync.",
            ),
        ),
    }
}

pub open spec fn unverified_save_message() -> Seq<char> {
    "Mailbox authorization code was accepted, but MailDock could not verify that it was saved. Please import the mailbox again."@
}

/// After saving, the code read back must be the code that was saved.
pub fn check_saved_code(saved: &str, authorization_code: &str) -> (r: Result<(), String>)
    ensures
        r is Ok <==> saved@ == authorization_code@,
        r matches Err(e) ==> e@ == unverified_save_message(),
{
    let a = chars_of(saved);
    let b = chars_of(authorization_code);
    if chars_equal(a.as_slice(), b.as_slice()) {
        Ok(())
    } else {
        Err(
            String::from_str(
                "Mailbox authorization code was accepted, but MailDock could not verify that it was saved. Please import the mailbox again.",
            ),
        )
    }
}

pub open spec fn qq_only_message() -> Seq<char> {
    "Saved sync is currently only available for QQ Mail accounts."@
}

/// Only QQ Mail accounts sync with a saved code.
pub fn check_saved_sync_provider(provider: ProviderKind) -> (r: Result<(), String>)
    ensures
        r is Ok <==> provider == ProviderKind::Qq,
        r matches Err(e) ==> e@ == qq_only_message(),
{
    match provider {
        ProviderKind::Qq => Ok(()),
        _ => Err(String::from_str("Saved sync is currently only available for QQ Mail accounts.")),
    }
}

// ---------------------------------------------------------------------------
// A sync with the saved code
// ---------------------------------------------------------------------------
/// Where a sync of an account with its saved code stands. The account has
/// been read; each step names the outside work to do next.
pub enum SyncStep {
    /// Send the started event and mark the inbox as syncing.
    MarkStarted(ProviderKind),
    /// Read the saved authorization code (see `next_lookup_action`).
    ReadCode,
    /// Run the inbox sync with the code.
    FetchInbox,
    /// Write the messages, mark the inbox synced and send the finished and
    /// changed events.
    StoreMessages,
    /// Mark the inbox as failed with this message and send the failed event.
    RecordFailure(String),
    /// The sync is over, with the error it ends with.
    Finished(Result<(), String>),
}

/// The step after `step` ended with `outcome`. Once the inbox is marked as
/// syncing, a failure is recorded with its message before the sync ends with
/// it; an account of another provider fails at once. A failure to mark the
/// inbox, or to record a failure, ends the sync with that error.
pub fn next_sync_step(step: SyncStep, outcome: Result<(), String>) -> (r: SyncStep)
    ensures
        match (step, outcome) {
            (SyncStep::MarkStarted(p), Ok(())) => if p == ProviderKind::Qq {
                r is ReadCode
            } else {
                r matches SyncStep::RecordFailure(m) && m@ == qq_only_message()
            },
            (SyncStep::MarkStarted(_), Err(e)) => r matches SyncStep::Finished(Err(m)) && m@ == e@,
            (SyncStep::ReadCode, Ok(())) => r is FetchInbox,
            (SyncStep::FetchInbox, Ok(())) => r is StoreMessages,
            (SyncStep::StoreMessages, Ok(())) => r matches SyncStep::Finished(Ok(())),
            (SyncStep::ReadCode, Err(e)) => r matches SyncStep::RecordFailure(m) && m@ == e@,
            (SyncStep::FetchInbox, Err(e)) => r matches SyncStep::RecordFailure(m) && m@ == e@,
            (SyncStep::StoreMessages, Err(e)) => r matches SyncStep::RecordFailure(m) && m@ == e@,
            (SyncStep::RecordFailure(m0), Ok(())) => r matches SyncStep::Finished(Err(m)) && m@
                == m0@,
            (SyncStep::RecordFailure(_), Err(e)) => r matches SyncStep::Finished(Err(m)) && m@
                == e@,
            (SyncStep::Finished(Ok(())), _) => r matches SyncStep::Finished(Ok(())),
            (SyncStep::Finished(Err(m0)), _) => r matches SyncStep::Finished(Err(m)) && m@ == m0@,
        },
{
    match step {
        SyncStep::MarkStarted(provider) => match outcome {
            Ok(()) => match check_saved_sync_provider(provider) {
                Ok(()) => SyncStep::ReadCode,
                Err(message) => SyncStep::RecordFailure(message),
            },
            Err(e) => SyncStep::Finished(Err(e)),
        },
        SyncStep::ReadCode => match outcome {
            Ok(()) => SyncStep::FetchInbox,
            Err(e) => SyncStep::RecordFailure(e),
        },
        SyncStep::FetchInbox => match outcome {
            Ok(()) => SyncStep::StoreMessages,
            Err(e) => SyncStep::RecordFailure(e),
        },
        SyncStep::StoreMessages => match outcome {
            Ok(()) => SyncStep::Finished(Ok(())),
            Err(e) => SyncStep::RecordFailure(e),
        },
        SyncStep::RecordFailure(message) => match outcome {
            Ok(()) => SyncStep::Finished(Err(message)),
            Err(e) => SyncStep::Finished(Err(e)),
        },
        SyncStep::Finished(result) => SyncStep::Finished(result),
    }
}

// ---------------------------------------------------------------------------
// Import and reports
// ---------------------------------------------------------------------------
/// The mailbox address and code that an import uses: the address trimmed
/// and lower-cased, the code trimmed.
pub fn import_credentials(input: &QqInboxSyncInput) -> (r: (String, String))
    ensures
        r.0@ == normalized_address(input.email@),
        r.1@ == trim(input.authorization_code@),
{
    let address = normalize_address(input.email.as_str());
    let code = trim_chars(chars_of(input.authorization_code.as_str()).as_slice());
    (address, string_of(code.as_slice()))
}

/// The inbox sync that a sync with the saved code runs: the account's
/// address, the saved code and the requested limit, which the sync plan
/// brings into `1..=100` (50 when none is given).
pub fn saved_sync_request(
    address: &str,
    authorization_code: String,
    input: &SavedQqInboxSyncInput,
) -> (r: QqInboxSyncInput)
    ensures
        r.email@ == address@,
        r.authorization_code@ == authorization_code@,
        r.limit == input.limit,
{
    QqInboxSyncInput {
        email: string_of(chars_of(address).as_slice()),
        authorization_code,
        limit: input.limit,
    }
}

/// Two rows written for messages hold the same values.
pub open spec fn same_upsert_row(a: MessageUpsertRow, b: MessageUpsertRow) -> bool {
    &&& a.id@ == b.id@
    &&& a.account_id == b.account_id
    &&& a.folder@ == b.folder@
    &&& a.provider_message_id@ == b.provider_message_id@
    &&& a.uid@ == b.uid@
    &&& a.from_address@ == b.from_address@
    &&& a.subject@ == b.subject@
    &&& a.received_at@ == b.received_at@
    &&& a.received_at_epoch == b.received_at_epoch
    &&& a.preview@ == b.preview@
    &&& a.body@ == b.body@
    &&& a.has_attachments == b.has_attachments
    &&& a.is_unread == b.is_unread
}

/// No authorization code reaches the cache: two imports of the same mailbox
/// address store the account under the same address whatever codes they
/// carry, and the row written for a message is fixed by the account, the
/// folder and the message alone. The code goes only to the IMAP login and
/// the credential store.
pub proof fn import_writes_no_code(
    first: QqInboxSyncInput,
    second: QqInboxSyncInput,
    account_id: i64,
    folder: Seq<char>,
    message: MailMessageView,
    first_row: MessageUpsertRow,
    second_row: MessageUpsertRow,
)
    requires
        first.email@ == second.email@,
        upsert_row_matches(first_row, account_id, folder, message),
        upsert_row_matches(second_row, account_id, folder, message),
    ensures
        normalized_address(first.email@) == normalized_address(second.email@),
        same_upsert_row(first_row, second_row),
{
}

/// The report of a sync that stored `stored` of the `fetched` messages read
/// from a folder holding `total_inbox_messages`; the code it used is saved.
pub fn sync_report(
    account_id: i64,
    address: String,
    folder: String,
    fetched: usize,
    stored: usize,
    total_inbox_messages: u32,
) -> (r: QqInboxSyncReport)
    ensures
        r.account_id == account_id,
        r.address@ == address@,
        r.folder@ == folder@,
        r.fetched == fetched,
        r.stored == stored,
        r.total_inbox_messages == total_inbox_messages,
        r.credential_saved,
{
    QqInboxSyncReport {
        account_id,
        address,
        folder,
        fetched,
        stored,
        total_inbox_messages,
        credential_saved: true,
    }
}

} // verus!
