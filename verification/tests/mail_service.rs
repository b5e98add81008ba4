use maildock::imap::{plan_qq_sync, QqInboxSyncInput};
use maildock::mail_service::{
    check_saved_code, check_saved_sync_provider, import_credentials, next_lookup_action,
    next_sync_step, saved_sync_request, sync_report, AccountSyncGuard, CodeLookup, LookupAction, SavedQqInboxSyncInput, SyncLocks, SyncStep,
    INBOX_FOLDER,
};
use maildock::models::ProviderKind;

#[test]
fn allows_one_sync_per_account() {
    let mut locks = SyncLocks::new();
    let guard = AccountSyncGuard::acquire(&mut locks, 7).expect("first sync");
    assert!(locks.is_running(7));
    assert_eq!(
        AccountSyncGuard::acquire(&mut locks, 7).err(),
        Some("Sync is already running for this account.".to_string())
    );
    let other = AccountSyncGuard::acquire(&mut locks, 8).expect("other account");
    guard.release(&mut locks);
    assert!(!locks.is_running(7));
    assert!(locks.is_running(8));
    let again = AccountSyncGuard::acquire(&mut locks, 7).expect("after release");
    assert_eq!(again.account_id, 7);
    other.release(&mut locks);
}

#[test]
fn looks_up_saved_codes_primary_first() {
    assert!(matches!(
        next_lookup_action(CodeLookup::Primary, Some("abc".into())),
        LookupAction::Use(code) if code == "abc"
    ));
    assert!(matches!(next_lookup_action(CodeLookup::Primary, None), LookupAction::ReadLegacy));
    assert!(matches!(
        next_lookup_action(CodeLookup::Legacy, Some("old".into())),
        LookupAction::MigrateAndUse(code) if code == "old"
    ));
    match next_lookup_action(CodeLookup::Legacy, None) {
        LookupAction::Fail(message) => assert_eq!(
            message,
            "No saved QQ authorization code found. Import this mailbox again to enable automatic sync."
        ),
        _ => panic!("expected a failure"),
    }
}

#[test]
fn checks_saved_codes_and_providers() {
    assert_eq!(check_saved_code("abc", "abc"), Ok(()));
    assert_eq!(
        check_saved_code("abd", "abc"),
        Err("Mailbox authorization code was accepted, but MailDock could not verify that it was saved. Please import the mailbox again.".to_string())
    );
    assert_eq!(check_saved_sync_provider(ProviderKind::Qq), Ok(()));
    assert_eq!(
        check_saved_sync_provider(ProviderKind::Gmail),
        Err("Saved sync is currently only available for QQ Mail accounts.".to_string())
    );
}

#[test]
fn builds_import_values_and_reports() {
    let input = QqInboxSyncInput {
        email: " Student@QQ.com\n".into(),
        authorization_code: "\tcode ".into(),
        limit: None,
    };
    let (address, code) = import_credentials(&input);
    assert_eq!(address, "student@qq.com");
    assert_eq!(code, "code");
    let report = sync_report(3, address, INBOX_FOLDER.to_string(), 5, 4, 120);
    assert_eq!(report.account_id, 3);
    assert_eq!(report.folder, "INBOX");
    assert_eq!((report.fetched, report.stored, report.total_inbox_messages), (5, 4, 120));
    assert!(report.credential_saved);
}

fn is_finished_with(step: &SyncStep, expected: &Result<(), String>) -> bool {
    matches!(step, SyncStep::Finished(result) if result == expected)
}

#[test]
fn runs_a_saved_code_sync_to_the_end() {
    let mut step = SyncStep::MarkStarted(ProviderKind::Qq);
    step = next_sync_step(step, Ok(()));
    assert!(matches!(step, SyncStep::ReadCode));
    step = next_sync_step(step, Ok(()));
    assert!(matches!(step, SyncStep::FetchInbox));
    step = next_sync_step(step, Ok(()));
    assert!(matches!(step, SyncStep::StoreMessages));
    step = next_sync_step(step, Ok(()));
    assert!(is_finished_with(&step, &Ok(())));
    step = next_sync_step(step, Err("ignored".into()));
    assert!(is_finished_with(&step, &Ok(())));
}

#[test]
fn records_failures_after_the_sync_started() {
    let step = next_sync_step(SyncStep::FetchInbox, Err("QQ IMAP login failed: no".into()));
    assert!(matches!(&step, SyncStep::RecordFailure(m) if m == "QQ IMAP login failed: no"));
    let done = next_sync_step(step, Ok(()));
    assert!(is_finished_with(&done, &Err("QQ IMAP login failed: no".to_string())));

    let step = next_sync_step(SyncStep::MarkStarted(ProviderKind::Gmail), Ok(()));
    assert!(matches!(&step, SyncStep::RecordFailure(m)
        if m == "Saved sync is currently only available for QQ Mail accounts."));
    let done = next_sync_step(step, Err("disk full".into()));
    assert!(is_finished_with(&done, &Err("disk full".to_string())));

    let not_started = next_sync_step(SyncStep::MarkStarted(ProviderKind::Qq), Err("locked".into()));
    assert!(is_finished_with(&not_started, &Err("locked".to_string())));
    let code_missing = next_sync_step(SyncStep::ReadCode, Err("no code".into()));
    assert!(matches!(&code_missing, SyncStep::RecordFailure(m) if m == "no code"));
    let store_failed = next_sync_step(SyncStep::StoreMessages, Err("write".into()));
    assert!(matches!(&store_failed, SyncStep::RecordFailure(m) if m == "write"));
}

#[test]
fn imports_of_one_mailbox_store_the_same_address_whatever_the_code() {
    let first = QqInboxSyncInput { email: "Student@qq.com".into(), authorization_code: "one".into(), limit: None };
    let second = QqInboxSyncInput { email: "Student@qq.com".into(), authorization_code: "two".into(), limit: Some(5) };
    assert_eq!(import_credentials(&first).0, import_credentials(&second).0);
    assert_ne!(import_credentials(&first).1, import_credentials(&second).1);
}

#[test]
fn saved_syncs_fetch_the_requested_number_of_messages() {
    let request = saved_sync_request(
        "student@qq.com",
        "code".into(),
        &SavedQqInboxSyncInput { account_id: 3, limit: Some(20) },
    );
    assert_eq!(request.email, "student@qq.com");
    assert_eq!(request.authorization_code, "code");
    assert_eq!(plan_qq_sync(&request).expect("plan").limit, 20);
    let default = saved_sync_request(
        "student@qq.com",
        "code".into(),
        &SavedQqInboxSyncInput { account_id: 3, limit: None },
    );
    assert_eq!(plan_qq_sync(&default).expect("plan").limit, 50);
}
